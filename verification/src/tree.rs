//! The persistent, weight-balanced ordered tree engine.
//!
//! A tree is an immutable value: every operation that "changes" a tree
//! builds a fresh path of nodes and returns a new root, while every subtree
//! that the operation did not touch is shared with the input through an
//! atomic reference count. Any number of versions of a tree may therefore
//! be read concurrently without coordination.
//!
//! The mathematical meaning of a tree is given by two spec views: the
//! in-order sequence of its entries (`entries`) and the finite map from
//! keys to values (`as_map`). The well-formedness predicate `wf` states the
//! search order and the cached sizes; `balanced` states the weight-balance
//! bound that the rebalancing join maintains.

use vstd::prelude::*;
use std::sync::Arc;
use crate::order::{TotalOrder, Cmp, ValueEq};
use crate::order::lt;

verus! {

broadcast use vstd::map_lib::lemma_union_dom;

/// One immutable tree cell. Key and value are shared by reference count, so
/// lookups and extraction hand them out without cloning the payload.
pub struct Node<K, V> {
    pub(crate) key: Arc<K>,
    pub(crate) value: Arc<V>,
    pub(crate) size: usize,
    pub(crate) left: Tree<K, V>,
    pub(crate) right: Tree<K, V>,
}

/// An ordered map from `K` to `V`, stored as a weight-balanced search tree.
pub enum Tree<K, V> {
    Empty,
    Node(Arc<Node<K, V>>),
}

/// Every element of `s` is strictly under `k`.
pub open spec fn below<K: TotalOrder>(s: Set<K>, k: K) -> bool {
    forall|x: K| #[trigger] s.contains(x) ==> lt(x, k)
}

/// Every element of `s` is strictly over `k`.
pub open spec fn above<K: TotalOrder>(s: Set<K>, k: K) -> bool {
    forall|x: K| #[trigger] s.contains(x) ==> lt(k, x)
}

/// Every element of `a` is strictly under every element of `b`.
pub open spec fn separated<K: TotalOrder>(a: Set<K>, b: Set<K>) -> bool {
    forall|x: K, y: K| #[trigger] a.contains(x) && #[trigger] b.contains(y) ==> lt(x, y)
}

/// The weight-balance bound between two sibling subtree sizes.
pub open spec fn bal(a: int, b: int) -> bool {
    a + b <= 1 || (a <= 3 * b && b <= 3 * a)
}

/// The shapes of imbalance that one rebalancing step repairs: the sizes
/// are in balance, or one entry just arrived at or left either side, or
/// one side is a fresh join of a small tree (`s` entries) with the child
/// (`t` entries) that used to stand there.
pub open spec fn rebalance_pre(a: int, b: int, s: int, t: int) -> bool {
    ||| bal(a, b)
    ||| (a >= 1 && bal(a - 1, b))
    ||| (b >= 1 && bal(a, b - 1))
    ||| bal(a + 1, b)
    ||| bal(a, b + 1)
    ||| (a == s + t + 1 && 0 <= s && 0 <= t && 3 * s < t + b + 1 && bal(t, b))
    ||| (b == s + t + 1 && 0 <= s && 0 <= t && 3 * s < t + a + 1 && bal(a, t))
}

/// A single rotation restores the balance bound at both rebuilt nodes.
proof fn lemma_rot_single(a: int, rls: int, rrs: int, s: int, t: int)
    requires
        0 <= a,
        0 <= rls,
        0 <= rrs,
        rebalance_pre(a, rls + rrs + 1, s, t),
        rls + rrs + 1 > 3 * a,
        bal(rls, rrs),
        rls < 2 * rrs || rls == 0,
    ensures
        bal(a, rls),
        bal(a + rls + 1, rrs),
{
}

/// A double rotation restores the balance bound at all three rebuilt
/// nodes.
proof fn lemma_rot_double(a: int, y1: int, y2: int, rrs: int, s: int, t: int)
    requires
        0 <= a,
        0 <= y1,
        0 <= y2,
        0 <= rrs,
        rebalance_pre(a, (y1 + y2 + 1) + rrs + 1, s, t),
        (y1 + y2 + 1) + rrs + 1 > 3 * a,
        bal(y1 + y2 + 1, rrs),
        y1 + y2 + 1 >= 2 * rrs,
        bal(y1, y2),
    ensures
        bal(a, y1),
        bal(y2, rrs),
        bal(a + y1 + 1, y2 + rrs + 1),
{
}

pub proof fn lemma_lt_trans<K: TotalOrder>(a: K, b: K, c: K)
    requires
        lt(a, b),
        lt(b, c),
    ensures
        lt(a, c),
{
    K::lemma_trans(a, b, c);
    if a == c {
        K::lemma_antisym(a, b);
    }
}

pub proof fn lemma_lt_asym<K: TotalOrder>(a: K, b: K)
    requires
        lt(a, b),
    ensures
        !lt(b, a),
{
    if lt(b, a) {
        lemma_lt_trans(a, b, a);
    }
}

pub proof fn lemma_le_lt_trans<K: TotalOrder>(a: K, b: K, c: K)
    requires
        a.le(b),
        lt(b, c),
    ensures
        lt(a, c),
{
    K::lemma_trans(a, b, c);
    if a == c {
        K::lemma_antisym(b, c);
    }
}

pub proof fn lemma_lt_le_trans<K: TotalOrder>(a: K, b: K, c: K)
    requires
        lt(a, b),
        b.le(c),
    ensures
        lt(a, c),
{
    K::lemma_trans(a, b, c);
    if a == c {
        K::lemma_antisym(a, b);
    }
}

impl<K, V> Tree<K, V> {
    /// The in-order sequence of entries: the primary model of a tree.
    pub closed spec fn entries(&self) -> Seq<(K, V)>
        decreases self,
    {
        match *self {
            Tree::Empty => Seq::empty(),
            Tree::Node(n) => n.left.entries() + seq![(*n.key, *n.value)] + n.right.entries(),
        }
    }

    /// The keys of the tree, in ascending order.
    pub open spec fn key_seq(&self) -> Seq<K> {
        self.entries().map_values(|p: (K, V)| p.0)
    }

    /// The finite map a tree stands for.
    pub closed spec fn as_map(&self) -> Map<K, V>
        decreases self,
    {
        match *self {
            Tree::Empty => Map::empty(),
            Tree::Node(n) => n.left.as_map().union_prefer_right(n.right.as_map()).insert(
                *n.key,
                *n.value,
            ),
        }
    }

    /// O(1) copy of a tree handle: the root is shared, not deep-copied.
    pub fn dup(&self) -> (r: Self)
        ensures
            r == *self,
    {
        match self {
            Tree::Empty => Tree::Empty,
            Tree::Node(n) => Tree::Node(n.clone()),
        }
    }
}

impl<K: TotalOrder, V> Tree<K, V> {
    /// Search order and cached sizes hold everywhere in the tree.
    pub closed spec fn wf(&self) -> bool
        decreases self,
    {
        match self {
            Tree::Empty => true,
            Tree::Node(n) => {
                &&& n.left.wf()
                &&& n.right.wf()
                &&& below(n.left.as_map().dom(), *n.key)
                &&& above(n.right.as_map().dom(), *n.key)
                &&& n.size == n.left.entries().len() + 1 + n.right.entries().len()
            },
        }
    }

    /// The weight-balance bound: outside of trivially small subtrees,
    /// neither child is more than `3` times the size of the other.
    pub closed spec fn balanced(&self) -> bool
        decreases self,
    {
        match self {
            Tree::Empty => true,
            Tree::Node(n) => {
                &&& n.left.balanced()
                &&& n.right.balanced()
                &&& bal(n.left.entries().len() as int, n.right.entries().len() as int)
            },
        }
    }

    /// The canonical zero-size tree.
    pub fn empty() -> (t: Self)
        ensures
            t.wf(),
            t.balanced(),
            t.as_map() == Map::<K, V>::empty(),
            t.entries() == Seq::<(K, V)>::empty(),
    {
        Tree::Empty
    }

    /// Number of entries, read from the cached field.
    pub fn size(&self) -> (n: usize)
        requires
            self.wf(),
        ensures
            n == self.entries().len(),
    {
        match self {
            Tree::Empty => 0,
            Tree::Node(node) => node.size,
        }
    }

    /// Builds one node over two subtrees that are already in order and in
    /// balance with each other.
    fn mk_node(k: Arc<K>, v: Arc<V>, l: Self, r: Self) -> (t: Self)
        requires
            l.wf(),
            r.wf(),
            l.balanced(),
            r.balanced(),
            bal(l.entries().len() as int, r.entries().len() as int),
            below(l.as_map().dom(), *k),
            above(r.as_map().dom(), *k),
            l.entries().len() + r.entries().len() + 1 <= usize::MAX,
        ensures
            t.wf(),
            t.balanced(),
            t.entries() == l.entries() + seq![(*k, *v)] + r.entries(),
            t.as_map() == l.as_map().union_prefer_right(r.as_map()).insert(*k, *v),
    {
        let ls = l.size();
        let rs = r.size();
        let t = Tree::Node(Arc::new(Node { key: k, value: v, size: ls + rs + 1, left: l, right: r }));
        t
    }

    /// One-entry tree.
    pub fn singleton(k: Arc<K>, v: Arc<V>) -> (t: Self)
        ensures
            t.wf(),
            t.balanced(),
            t.entries() == seq![(*k, *v)],
            t.as_map() == Map::<K, V>::empty().insert(*k, *v),
    {
        let t = Self::mk_node(k, v, Tree::Empty, Tree::Empty);
        proof {
            assert(t.entries() =~= seq![(*k, *v)]);
        }
        t
    }

    /// Restores the weight balance at one node by a single or a double
    /// rotation, chosen by which child is the heavier; the entries and the
    /// map are those of a plain node over the same parts.
    /// Rotation step when the right subtree has grown too heavy.
    #[verifier::rlimit(100)]
    fn rot_left(k: Arc<K>, v: Arc<V>, l: &Self, r: &Self, st: Ghost<(int, int)>) -> (t: Self)
        requires
            l.wf(),
            r.wf(),
            l.balanced(),
            r.balanced(),
            rebalance_pre(l.entries().len() as int, r.entries().len() as int, st@.0, st@.1),
            below(l.as_map().dom(), *k),
            above(r.as_map().dom(), *k),
            l.entries().len() + r.entries().len() + 1 <= usize::MAX,
            r.entries().len() > 3 * l.entries().len(),
        ensures
            t.wf(),
            t.balanced(),
            t.entries() == l.entries() + seq![(*k, *v)] + r.entries(),
            t.as_map() == l.as_map().union_prefer_right(r.as_map()).insert(*k, *v),
    {
        {
            match r {
                Tree::Node(rn) => {
                    proof {
                        assert(rn.left.balanced() && rn.right.balanced());
                        assert(bal(
                            rn.left.entries().len() as int,
                            rn.right.entries().len() as int,
                        ));
                        assert(r.as_map().dom().contains(*rn.key));
                        assert(lt(*k, *rn.key));
                        assert(!rn.right.as_map().dom().contains(*k)) by {
                            if rn.right.as_map().dom().contains(*k) {
                                assert(r.as_map().dom().contains(*k));
                            }
                        }
                        assert(above(rn.left.as_map().dom(), *k)) by {
                            assert forall|x: K| #[trigger] rn.left.as_map().dom().contains(x)
                                implies lt(*k, x) by {
                                assert(r.as_map().dom().contains(x));
                            }
                        }
                        assert(above(rn.right.as_map().dom(), *k)) by {
                            assert forall|x: K| #[trigger] rn.right.as_map().dom().contains(x)
                                implies lt(*k, x) by {
                                assert(r.as_map().dom().contains(x));
                            }
                        }
                    }
                    let rls = rn.left.size();
                    let rrs = rn.right.size();
                    if ((rls as u128) < 2 * (rrs as u128)) || matches!(&rn.left, Tree::Empty) {
                        // single rotation toward the left
                        proof {
                            lemma_rot_single(
                                l.entries().len() as int,
                                rn.left.entries().len() as int,
                                rn.right.entries().len() as int,
                                st@.0,
                                st@.1,
                            );
                        }
                        let inner = Self::mk_node(k, v, l.dup(), rn.left.dup());
                        proof {
                            assert forall|x: K| #[trigger] inner.as_map().dom().contains(x)
                                implies lt(x, *rn.key) by {
                                if l.as_map().dom().contains(x) {
                                    lemma_lt_trans(x, *k, *rn.key);
                                } else if !rn.left.as_map().dom().contains(x) {
                                    assert(x == *k);
                                }
                            }
                        }
                        let t = Self::mk_node(rn.key.clone(), rn.value.clone(), inner, rn.right.dup());
                        proof {
                            assert(t.entries() =~= l.entries() + seq![(*k, *v)] + r.entries());
                            assert(t.as_map() =~= l.as_map().union_prefer_right(r.as_map()).insert(*k, *v));
                        }
                        t
                    } else {
                        match &rn.left {
                            Tree::Node(rln) => {
                                proof {
                                    assert(rn.left == Tree::Node(*rln));
                                    assert(Tree::Node(*rln).wf());
                                    assert(rln.left.wf() && rln.right.wf());
                                    assert(below(rln.left.as_map().dom(), *rln.key));
                                    assert(above(rln.right.as_map().dom(), *rln.key));
                                    assert(rn.left.as_map().dom().contains(*rln.key));
                                    assert(lt(*k, *rln.key));
                                    assert(lt(*rln.key, *rn.key));
                                    assert(rn.left.as_map() == rln.left.as_map().union_prefer_right(
                                        rln.right.as_map()).insert(*rln.key, *rln.value));
                                    assert(rn.left.entries() == rln.left.entries()
                                        + seq![(*rln.key, *rln.value)] + rln.right.entries());
                                    assert(!rn.right.as_map().dom().contains(*rln.key)) by {
                                        if rn.right.as_map().dom().contains(*rln.key) {
                                            lemma_lt_trans(*rln.key, *rn.key, *rln.key);
                                        }
                                    }
                                    assert(Tree::Node(*rln).balanced());
                                    assert(rln.left.balanced() && rln.right.balanced());
                                    assert(bal(
                                        rln.left.entries().len() as int,
                                        rln.right.entries().len() as int,
                                    ));
                                    lemma_rot_double(
                                        l.entries().len() as int,
                                        rln.left.entries().len() as int,
                                        rln.right.entries().len() as int,
                                        rn.right.entries().len() as int,
                                        st@.0,
                                        st@.1,
                                    );
                                    assert(!rln.right.as_map().dom().contains(*k)) by {
                                        if rln.right.as_map().dom().contains(*k) {
                                            assert(rn.left.as_map().dom().contains(*k));
                                        }
                                    }
                                    assert(above(rln.left.as_map().dom(), *k)) by {
                                        assert forall|x: K|
                                            #[trigger] rln.left.as_map().dom().contains(x)
                                            implies lt(*k, x) by {
                                            assert(rn.left.as_map().dom().contains(x));
                                        }
                                    }
                                    assert(above(rln.right.as_map().dom(), *k)) by {
                                        assert forall|x: K|
                                            #[trigger] rln.right.as_map().dom().contains(x)
                                            implies lt(*k, x) by {
                                            assert(rn.left.as_map().dom().contains(x));
                                        }
                                    }
                                    assert(below(rln.left.as_map().dom(), *rn.key)) by {
                                        assert forall|x: K|
                                            #[trigger] rln.left.as_map().dom().contains(x)
                                            implies lt(x, *rn.key) by {
                                            lemma_lt_trans(x, *rln.key, *rn.key);
                                        }
                                    }
                                    assert(below(rln.right.as_map().dom(), *rn.key)) by {
                                        assert forall|x: K|
                                            #[trigger] rln.right.as_map().dom().contains(x)
                                            implies lt(x, *rn.key) by {
                                            assert(rn.left.as_map().dom().contains(x));
                                        }
                                    }
                                }
                                let a = Self::mk_node(k, v, l.dup(), rln.left.dup());
                                let b = Self::mk_node(
                                    rn.key.clone(),
                                    rn.value.clone(),
                                    rln.right.dup(),
                                    rn.right.dup(),
                                );
                                proof {
                                    assert forall|x: K| #[trigger] a.as_map().dom().contains(x)
                                        implies lt(x, *rln.key) by {
                                        if l.as_map().dom().contains(x) {
                                            lemma_lt_trans(x, *k, *rln.key);
                                        } else if !rln.left.as_map().dom().contains(x) {
                                            assert(x == *k);
                                        }
                                    }
                                    assert forall|x: K| #[trigger] b.as_map().dom().contains(x)
                                        implies lt(*rln.key, x) by {
                                        if rn.right.as_map().dom().contains(x) {
                                            lemma_lt_trans(*rln.key, *rn.key, x);
                                        } else if !rln.right.as_map().dom().contains(x) {
                                            assert(x == *rn.key);
                                        }
                                    }
                                }
                                let t = Self::mk_node(rln.key.clone(), rln.value.clone(), a, b);
                                proof {
                                    assert(t.entries() =~= l.entries() + seq![(*k, *v)] + r.entries());
                                    assert(t.as_map() =~= l.as_map().union_prefer_right(r.as_map()).insert(*k, *v));
                                }
                                t
                            },
                            Tree::Empty => {
                                proof {
                                    assert(false);
                                }
                                Tree::Empty
                            },
                        }
                    }
                },
                Tree::Empty => {
                    proof {
                        assert(false);
                    }
                    Tree::Empty
                },
            }
        }
    }

    /// Rotation step when the left subtree has grown too heavy.
    #[verifier::rlimit(100)]
    fn rot_right(k: Arc<K>, v: Arc<V>, l: &Self, r: &Self, st: Ghost<(int, int)>) -> (t: Self)
        requires
            l.wf(),
            r.wf(),
            l.balanced(),
            r.balanced(),
            rebalance_pre(l.entries().len() as int, r.entries().len() as int, st@.0, st@.1),
            below(l.as_map().dom(), *k),
            above(r.as_map().dom(), *k),
            l.entries().len() + r.entries().len() + 1 <= usize::MAX,
            l.entries().len() > 3 * r.entries().len(),
        ensures
            t.wf(),
            t.balanced(),
            t.entries() == l.entries() + seq![(*k, *v)] + r.entries(),
            t.as_map() == l.as_map().union_prefer_right(r.as_map()).insert(*k, *v),
    {
        {
            match l {
                Tree::Node(ln) => {
                    proof {
                        assert(ln.left.balanced() && ln.right.balanced());
                        assert(bal(
                            ln.left.entries().len() as int,
                            ln.right.entries().len() as int,
                        ));
                        assert(rebalance_pre(
                            r.entries().len() as int,
                            l.entries().len() as int,
                            st@.0,
                            st@.1,
                        ));
                        assert(l.as_map().dom().contains(*ln.key));
                        assert(lt(*ln.key, *k));
                        assert(!ln.left.as_map().dom().contains(*k)) by {
                            if ln.left.as_map().dom().contains(*k) {
                                assert(l.as_map().dom().contains(*k));
                            }
                        }
                        assert(below(ln.left.as_map().dom(), *k)) by {
                            assert forall|x: K| #[trigger] ln.left.as_map().dom().contains(x)
                                implies lt(x, *k) by {
                                assert(l.as_map().dom().contains(x));
                            }
                        }
                        assert(below(ln.right.as_map().dom(), *k)) by {
                            assert forall|x: K| #[trigger] ln.right.as_map().dom().contains(x)
                                implies lt(x, *k) by {
                                assert(l.as_map().dom().contains(x));
                            }
                        }
                        assert(!r.as_map().dom().contains(*ln.key)) by {
                            if r.as_map().dom().contains(*ln.key) {
                                lemma_lt_trans(*ln.key, *k, *ln.key);
                            }
                        }
                    }
                    let lls = ln.left.size();
                    let lrs = ln.right.size();
                    if ((lrs as u128) < 2 * (lls as u128)) || matches!(&ln.right, Tree::Empty) {
                        // single rotation toward the right
                        proof {
                            lemma_rot_single(
                                r.entries().len() as int,
                                ln.right.entries().len() as int,
                                ln.left.entries().len() as int,
                                st@.0,
                                st@.1,
                            );
                        }
                        let inner = Self::mk_node(k, v, ln.right.dup(), r.dup());
                        proof {
                            assert forall|x: K| #[trigger] inner.as_map().dom().contains(x)
                                implies lt(*ln.key, x) by {
                                if r.as_map().dom().contains(x) {
                                    lemma_lt_trans(*ln.key, *k, x);
                                } else if !ln.right.as_map().dom().contains(x) {
                                    assert(x == *k);
                                }
                            }
                        }
                        let t = Self::mk_node(ln.key.clone(), ln.value.clone(), ln.left.dup(), inner);
                        proof {
                            assert(t.entries() =~= l.entries() + seq![(*k, *v)] + r.entries());
                            assert(t.as_map() =~= l.as_map().union_prefer_right(r.as_map()).insert(*k, *v));
                        }
                        t
                    } else {
                        match &ln.right {
                            Tree::Node(lrn) => {
                                proof {
                                    assert(ln.right == Tree::Node(*lrn));
                                    assert(Tree::Node(*lrn).wf());
                                    assert(lrn.left.wf() && lrn.right.wf());
                                    assert(below(lrn.left.as_map().dom(), *lrn.key));
                                    assert(above(lrn.right.as_map().dom(), *lrn.key));
                                    assert(ln.right.as_map().dom().contains(*lrn.key));
                                    assert(lt(*lrn.key, *k));
                                    assert(lt(*ln.key, *lrn.key));
                                    assert(ln.right.as_map() == lrn.left.as_map().union_prefer_right(
                                        lrn.right.as_map()).insert(*lrn.key, *lrn.value));
                                    assert(ln.right.entries() == lrn.left.entries()
                                        + seq![(*lrn.key, *lrn.value)] + lrn.right.entries());
                                    assert(!ln.left.as_map().dom().contains(*lrn.key)) by {
                                        if ln.left.as_map().dom().contains(*lrn.key) {
                                            lemma_lt_trans(*lrn.key, *ln.key, *lrn.key);
                                        }
                                    }
                                    assert(!r.as_map().dom().contains(*ln.key)) by {
                                        if r.as_map().dom().contains(*ln.key) {
                                            lemma_lt_trans(*ln.key, *k, *ln.key);
                                        }
                                    }
                                    assert(!r.as_map().dom().contains(*lrn.key)) by {
                                        if r.as_map().dom().contains(*lrn.key) {
                                            lemma_lt_trans(*lrn.key, *k, *lrn.key);
                                        }
                                    }
                                    assert(Tree::Node(*lrn).balanced());
                                    assert(lrn.left.balanced() && lrn.right.balanced());
                                    assert(bal(
                                        lrn.left.entries().len() as int,
                                        lrn.right.entries().len() as int,
                                    ));
                                    lemma_rot_double(
                                        r.entries().len() as int,
                                        lrn.right.entries().len() as int,
                                        lrn.left.entries().len() as int,
                                        ln.left.entries().len() as int,
                                        st@.0,
                                        st@.1,
                                    );
                                    assert(!lrn.left.as_map().dom().contains(*k)) by {
                                        if lrn.left.as_map().dom().contains(*k) {
                                            assert(ln.right.as_map().dom().contains(*k));
                                        }
                                    }
                                    assert(below(lrn.left.as_map().dom(), *k)) by {
                                        assert forall|x: K|
                                            #[trigger] lrn.left.as_map().dom().contains(x)
                                            implies lt(x, *k) by {
                                            assert(ln.right.as_map().dom().contains(x));
                                        }
                                    }
                                    assert(below(lrn.right.as_map().dom(), *k)) by {
                                        assert forall|x: K|
                                            #[trigger] lrn.right.as_map().dom().contains(x)
                                            implies lt(x, *k) by {
                                            assert(ln.right.as_map().dom().contains(x));
                                        }
                                    }
                                    assert(above(lrn.left.as_map().dom(), *ln.key)) by {
                                        assert forall|x: K|
                                            #[trigger] lrn.left.as_map().dom().contains(x)
                                            implies lt(*ln.key, x) by {
                                            assert(ln.right.as_map().dom().contains(x));
                                        }
                                    }
                                    assert(above(lrn.right.as_map().dom(), *ln.key)) by {
                                        assert forall|x: K|
                                            #[trigger] lrn.right.as_map().dom().contains(x)
                                            implies lt(*ln.key, x) by {
                                            lemma_lt_trans(*ln.key, *lrn.key, x);
                                        }
                                    }
                                }
                                let a = Self::mk_node(ln.key.clone(), ln.value.clone(), ln.left.dup(), lrn.left.dup());
                                let b = Self::mk_node(k, v, lrn.right.dup(), r.dup());
                                proof {
                                    assert forall|x: K| #[trigger] a.as_map().dom().contains(x)
                                        implies lt(x, *lrn.key) by {
                                        if ln.left.as_map().dom().contains(x) {
                                            lemma_lt_trans(x, *ln.key, *lrn.key);
                                        } else if !lrn.left.as_map().dom().contains(x) {
                                            assert(x == *ln.key);
                                        }
                                    }
                                    assert forall|x: K| #[trigger] b.as_map().dom().contains(x)
                                        implies lt(*lrn.key, x) by {
                                        if r.as_map().dom().contains(x) {
                                            lemma_lt_trans(*lrn.key, *k, x);
                                        } else if !lrn.right.as_map().dom().contains(x) {
                                            assert(x == *k);
                                        }
                                    }
                                }
                                let t = Self::mk_node(lrn.key.clone(), lrn.value.clone(), a, b);
                                proof {
                                    assert(t.entries() =~= l.entries() + seq![(*k, *v)] + r.entries());
                                    assert(t.as_map() =~= l.as_map().union_prefer_right(r.as_map()).insert(*k, *v));
                                }
                                t
                            },
                            Tree::Empty => {
                                proof {
                                    assert(false);
                                }
                                Tree::Empty
                            },
                        }
                    }
                },
                Tree::Empty => {
                    proof {
                        assert(false);
                    }
                    Tree::Empty
                },
            }
        }
    }

    /// Restores the weight balance at one node by a single or a double
    /// rotation, chosen by which child is the heavier; the entries and the
    /// map are those of a plain node over the same parts. The ghost pair
    /// carries the join decomposition when one side is a fresh join.
    fn rebalance(k: Arc<K>, v: Arc<V>, l: &Self, r: &Self, st: Ghost<(int, int)>) -> (t: Self)
        requires
            l.wf(),
            r.wf(),
            l.balanced(),
            r.balanced(),
            rebalance_pre(l.entries().len() as int, r.entries().len() as int, st@.0, st@.1),
            below(l.as_map().dom(), *k),
            above(r.as_map().dom(), *k),
            l.entries().len() + r.entries().len() + 1 <= usize::MAX,
        ensures
            t.wf(),
            t.balanced(),
            t.entries() == l.entries() + seq![(*k, *v)] + r.entries(),
            t.as_map() == l.as_map().union_prefer_right(r.as_map()).insert(*k, *v),
    {
        let ls = l.size();
        let rs = r.size();
        if (rs as u128) > 3 * (ls as u128) {
            Self::rot_left(k, v, l, r, st)
        } else if (ls as u128) > 3 * (rs as u128) {
            Self::rot_right(k, v, l, r, st)
        } else {
            Self::mk_node(k, v, l.dup(), r.dup())
        }
    }

    /// New version of the tree with `k` bound to `v`; an existing binding of
    /// `k` is replaced, everything else is shared with the input.
    pub fn insert_pair(&self, k: Arc<K>, v: Arc<V>) -> (t: Self)
        requires
            self.wf(),
            self.balanced(),
            self.entries().len() < usize::MAX,
        ensures
            t.wf(),
            t.balanced(),
            t.as_map() == self.as_map().insert(*k, *v),
            t.entries().len() == self.entries().len() + (if self.as_map().dom().contains(*k) {
                0int
            } else {
                1int
            }),
        decreases self,
    {
        match self {
            Tree::Empty => {
                let t = Self::mk_node(k, v, Tree::Empty, Tree::Empty);
                proof {
                    assert(t.as_map() =~= self.as_map().insert(*k, *v));
                }
                t
            },
            Tree::Node(n) => {
                match (&*k).compare(&*n.key) {
                    Cmp::Lt => {
                        proof {
                            assert(!n.right.as_map().dom().contains(*k)) by {
                                if n.right.as_map().dom().contains(*k) {
                                    lemma_lt_trans(*k, *n.key, *k);
                                }
                            }
                        }
                        let nl = n.left.insert_pair(k, v);
                        proof {
                            assert forall|x: K| #[trigger] nl.as_map().dom().contains(x)
                                implies lt(x, *n.key) by {
                                if x != *k {
                                    assert(n.left.as_map().dom().contains(x));
                                }
                            }
                        }
                        let t = Self::rebalance(n.key.clone(), n.value.clone(), &nl, &n.right, Ghost((0int, 0int)));
                        proof {
                            assert(t.as_map() =~= self.as_map().insert(*k, *v));
                            assert(self.as_map().dom().contains(*k)
                                == n.left.as_map().dom().contains(*k));
                        }
                        t
                    },
                    Cmp::Eq => {
                        let t = Self::mk_node(k, v, n.left.dup(), n.right.dup());
                        proof {
                            assert(t.as_map() =~= self.as_map().insert(*k, *v));
                            assert(self.as_map().dom().contains(*k));
                        }
                        t
                    },
                    Cmp::Gt => {
                        proof {
                            assert(!n.left.as_map().dom().contains(*k)) by {
                                if n.left.as_map().dom().contains(*k) {
                                    lemma_lt_trans(*k, *n.key, *k);
                                }
                            }
                        }
                        let nr = n.right.insert_pair(k, v);
                        proof {
                            assert forall|x: K| #[trigger] nr.as_map().dom().contains(x)
                                implies lt(*n.key, x) by {
                                if x != *k {
                                    assert(n.right.as_map().dom().contains(x));
                                }
                            }
                        }
                        let t = Self::rebalance(n.key.clone(), n.value.clone(), &n.left, &nr, Ghost((0int, 0int)));
                        proof {
                            assert(t.as_map() =~= self.as_map().insert(*k, *v));
                            assert(self.as_map().dom().contains(*k)
                                == n.right.as_map().dom().contains(*k));
                        }
                        t
                    },
                }
            },
        }
    }

    /// The value bound to `k`, shared with the tree, or nothing.
    pub fn lookup(&self, k: &K) -> (r: Option<Arc<V>>)
        requires
            self.wf(),
        ensures
            (match r {
                Some(v) => self.as_map().dom().contains(*k) && self.as_map()[*k] == *v,
                None => !self.as_map().dom().contains(*k),
            }),
        decreases self,
    {
        match self {
            Tree::Empty => None,
            Tree::Node(n) => {
                match k.compare(&*n.key) {
                    Cmp::Lt => {
                        proof {
                            assert(!n.right.as_map().dom().contains(*k)) by {
                                if n.right.as_map().dom().contains(*k) {
                                    lemma_lt_trans(*k, *n.key, *k);
                                }
                            }
                        }
                        n.left.lookup(k)
                    },
                    Cmp::Eq => Some(n.value.clone()),
                    Cmp::Gt => {
                        proof {
                            assert(!n.left.as_map().dom().contains(*k)) by {
                                if n.left.as_map().dom().contains(*k) {
                                    lemma_lt_trans(*k, *n.key, *k);
                                }
                            }
                        }
                        n.right.lookup(k)
                    },
                }
            },
        }
    }

    /// Whether `k` has a binding in the tree.
    pub fn contains_key(&self, k: &K) -> (r: bool)
        requires
            self.wf(),
        ensures
            r == self.as_map().dom().contains(*k),
    {
        match self.lookup(k) {
            Some(_) => true,
            None => false,
        }
    }

    /// Joins two ordered subtrees around a middle entry, rebalancing along
    /// the heavier spine; works for children of arbitrary relative size.
    fn link(k: Arc<K>, v: Arc<V>, l: &Self, r: &Self) -> (t: Self)
        requires
            l.wf(),
            r.wf(),
            l.balanced(),
            r.balanced(),
            below(l.as_map().dom(), *k),
            above(r.as_map().dom(), *k),
            l.entries().len() + r.entries().len() + 1 <= usize::MAX,
        ensures
            t.wf(),
            t.balanced(),
            t.entries() == l.entries() + seq![(*k, *v)] + r.entries(),
            t.as_map() == l.as_map().union_prefer_right(r.as_map()).insert(*k, *v),
        decreases l.entries().len() + r.entries().len(),
    {
        let ls = l.size();
        let rs = r.size();
        if (rs as u128) > 3 * (ls as u128) {
            match r {
                Tree::Node(rn) => {
                    proof {
                        assert(r.as_map().dom().contains(*rn.key));
                        assert(lt(*k, *rn.key));
                        assert(above(rn.left.as_map().dom(), *k)) by {
                            assert forall|x: K| #[trigger] rn.left.as_map().dom().contains(x)
                                implies lt(*k, x) by {
                                assert(r.as_map().dom().contains(x));
                            }
                        }
                    }
                    let inner = Self::link(k, v, l, &rn.left);
                    proof {
                        assert forall|x: K| #[trigger] inner.as_map().dom().contains(x)
                            implies lt(x, *rn.key) by {
                            if l.as_map().dom().contains(x) {
                                lemma_lt_trans(x, *k, *rn.key);
                            } else if !rn.left.as_map().dom().contains(x) {
                                assert(x == *k);
                            }
                        }
                    }
                    let t = Self::rebalance(rn.key.clone(), rn.value.clone(), &inner, &rn.right, Ghost((l.entries().len() as int, rn.left.entries().len() as int)));
                    proof {
                        assert(t.entries() =~= l.entries() + seq![(*k, *v)] + r.entries());
                        assert(!rn.right.as_map().dom().contains(*k)) by {
                            if rn.right.as_map().dom().contains(*k) {
                                assert(r.as_map().dom().contains(*k));
                            }
                        }
                        assert(t.as_map() =~= l.as_map().union_prefer_right(r.as_map()).insert(
                            *k,
                            *v,
                        ));
                    }
                    t
                },
                Tree::Empty => {
                    proof {
                        assert(false);
                    }
                    Tree::Empty
                },
            }
        } else if (ls as u128) > 3 * (rs as u128) {
            match l {
                Tree::Node(ln) => {
                    proof {
                        assert(l.as_map().dom().contains(*ln.key));
                        assert(lt(*ln.key, *k));
                        assert(below(ln.right.as_map().dom(), *k)) by {
                            assert forall|x: K| #[trigger] ln.right.as_map().dom().contains(x)
                                implies lt(x, *k) by {
                                assert(l.as_map().dom().contains(x));
                            }
                        }
                    }
                    let inner = Self::link(k, v, &ln.right, r);
                    proof {
                        assert forall|x: K| #[trigger] inner.as_map().dom().contains(x)
                            implies lt(*ln.key, x) by {
                            if r.as_map().dom().contains(x) {
                                lemma_lt_trans(*ln.key, *k, x);
                            } else if !ln.right.as_map().dom().contains(x) {
                                assert(x == *k);
                            }
                        }
                    }
                    let t = Self::rebalance(ln.key.clone(), ln.value.clone(), &ln.left, &inner, Ghost((r.entries().len() as int, ln.right.entries().len() as int)));
                    proof {
                        assert(t.entries() =~= l.entries() + seq![(*k, *v)] + r.entries());
                        assert(!ln.left.as_map().dom().contains(*k)) by {
                            if ln.left.as_map().dom().contains(*k) {
                                assert(l.as_map().dom().contains(*k));
                            }
                        }
                        assert(!r.as_map().dom().contains(*ln.key)) by {
                            if r.as_map().dom().contains(*ln.key) {
                                lemma_lt_trans(*ln.key, *k, *ln.key);
                            }
                        }
                        assert(t.as_map() =~= l.as_map().union_prefer_right(r.as_map()).insert(
                            *k,
                            *v,
                        ));
                    }
                    t
                },
                Tree::Empty => {
                    proof {
                        assert(false);
                    }
                    Tree::Empty
                },
            }
        } else {
            Self::mk_node(k, v, l.dup(), r.dup())
        }
    }

    /// Extracts the greatest entry; the rest of the tree stays balanced.
    pub fn pop_max_pair(&self) -> (res: (Arc<K>, Arc<V>, Self))
        requires
            self.wf(),
            self.balanced(),
            self.entries().len() > 0,
        ensures
            res.2.wf(),
            res.2.balanced(),
            res.2.entries() == self.entries().drop_last(),
            self.entries().last() == (*res.0, *res.1),
            res.2.as_map() == self.as_map().remove(*res.0),
            below(res.2.as_map().dom(), *res.0),
            self.as_map().dom().contains(*res.0),
            self.as_map()[*res.0] == *res.1,
        decreases self,
    {
        match self {
            Tree::Empty => unreached(),
            Tree::Node(n) => {
                match &n.right {
                    Tree::Empty => {
                        let res = (n.key.clone(), n.value.clone(), n.left.dup());
                        proof {
                            assert(res.2.entries() =~= self.entries().drop_last());
                            assert(!n.left.as_map().dom().contains(*n.key));
                            assert(res.2.as_map() =~= self.as_map().remove(*n.key));
                        }
                        res
                    },
                    Tree::Node(_) => {
                        let (mk, mv, nr) = n.right.pop_max_pair();
                        proof {
                            assert(above(nr.as_map().dom(), *n.key)) by {
                                assert forall|x: K| #[trigger] nr.as_map().dom().contains(x)
                                    implies lt(*n.key, x) by {
                                    assert(n.right.as_map().dom().contains(x));
                                }
                            }
                            assert(n.right.as_map().dom().contains(*mk));
                            assert(lt(*n.key, *mk));
                            assert(!n.left.as_map().dom().contains(*mk)) by {
                                if n.left.as_map().dom().contains(*mk) {
                                    lemma_lt_trans(*mk, *n.key, *mk);
                                }
                            }
                        }
                        let t = Self::rebalance(n.key.clone(), n.value.clone(), &n.left, &nr, Ghost((0int, 0int)));
                        let res = (mk, mv, t);
                        proof {
                            assert(res.2.entries() =~= self.entries().drop_last());
                            assert(res.2.as_map() =~= self.as_map().remove(*res.0));
                            assert forall|x: K| #[trigger] res.2.as_map().dom().contains(x)
                                implies lt(x, *res.0) by {
                                if n.left.as_map().dom().contains(x) {
                                    lemma_lt_trans(x, *n.key, *res.0);
                                } else if !nr.as_map().dom().contains(x) {
                                    assert(x == *n.key);
                                }
                            }
                        }
                        res
                    },
                }
            },
        }
    }

    /// Extracts the least entry; the rest of the tree stays balanced.
    pub fn pop_min_pair(&self) -> (res: (Arc<K>, Arc<V>, Self))
        requires
            self.wf(),
            self.balanced(),
            self.entries().len() > 0,
        ensures
            res.2.wf(),
            res.2.balanced(),
            res.2.entries() == self.entries().drop_first(),
            self.entries().first() == (*res.0, *res.1),
            res.2.as_map() == self.as_map().remove(*res.0),
            above(res.2.as_map().dom(), *res.0),
            self.as_map().dom().contains(*res.0),
            self.as_map()[*res.0] == *res.1,
        decreases self,
    {
        match self {
            Tree::Empty => unreached(),
            Tree::Node(n) => {
                match &n.left {
                    Tree::Empty => {
                        let res = (n.key.clone(), n.value.clone(), n.right.dup());
                        proof {
                            assert(res.2.entries() =~= self.entries().drop_first());
                            assert(!n.right.as_map().dom().contains(*n.key));
                            assert(res.2.as_map() =~= self.as_map().remove(*n.key));
                        }
                        res
                    },
                    Tree::Node(_) => {
                        let (mk, mv, nl) = n.left.pop_min_pair();
                        proof {
                            assert(below(nl.as_map().dom(), *n.key)) by {
                                assert forall|x: K| #[trigger] nl.as_map().dom().contains(x)
                                    implies lt(x, *n.key) by {
                                    assert(n.left.as_map().dom().contains(x));
                                }
                            }
                            assert(n.left.as_map().dom().contains(*mk));
                            assert(lt(*mk, *n.key));
                            assert(!n.right.as_map().dom().contains(*mk)) by {
                                if n.right.as_map().dom().contains(*mk) {
                                    lemma_lt_trans(*mk, *n.key, *mk);
                                }
                            }
                        }
                        let t = Self::rebalance(n.key.clone(), n.value.clone(), &nl, &n.right, Ghost((0int, 0int)));
                        let res = (mk, mv, t);
                        proof {
                            assert(res.2.entries() =~= self.entries().drop_first());
                            assert(res.2.as_map() =~= self.as_map().remove(*res.0));
                            assert forall|x: K| #[trigger] res.2.as_map().dom().contains(x)
                                implies lt(*res.0, x) by {
                                if n.right.as_map().dom().contains(x) {
                                    lemma_lt_trans(*res.0, *n.key, x);
                                } else if !nl.as_map().dom().contains(x) {
                                    assert(x == *n.key);
                                }
                            }
                        }
                        res
                    },
                }
            },
        }
    }

    /// Concatenates two trees whose key ranges do not overlap.
    fn concat(l: &Self, r: &Self) -> (t: Self)
        requires
            l.wf(),
            r.wf(),
            l.balanced(),
            r.balanced(),
            separated(l.as_map().dom(), r.as_map().dom()),
            l.entries().len() + r.entries().len() <= usize::MAX,
        ensures
            t.wf(),
            t.balanced(),
            t.entries() == l.entries() + r.entries(),
            t.as_map() == l.as_map().union_prefer_right(r.as_map()),
    {
        match l {
            Tree::Empty => {
                let t = r.dup();
                proof {
                    assert(t.entries() =~= l.entries() + r.entries());
                    assert(t.as_map() =~= l.as_map().union_prefer_right(r.as_map()));
                }
                t
            },
            Tree::Node(_) => {
                match r {
                    Tree::Empty => {
                        let t = l.dup();
                        proof {
                            assert(t.entries() =~= l.entries() + r.entries());
                            assert(t.as_map() =~= l.as_map().union_prefer_right(r.as_map()));
                        }
                        t
                    },
                    Tree::Node(_) => {
                        // hand the pivot role to the structurally larger side
                        if l.size() > r.size() {
                            let (mk, mv, l2) = l.pop_max_pair();
                            proof {
                                assert(l.as_map().dom().contains(*mk));
                                assert(above(r.as_map().dom(), *mk)) by {
                                    assert forall|x: K| #[trigger] r.as_map().dom().contains(x)
                                        implies lt(*mk, x) by {
                                        assert(l.as_map().dom().contains(*mk));
                                    }
                                }
                            }
                            let t = Self::link(mk, mv, &l2, r);
                            proof {
                                assert(t.entries() =~= l.entries() + r.entries());
                                assert(!r.as_map().dom().contains(*mk));
                                assert(t.as_map() =~= l.as_map().union_prefer_right(r.as_map()));
                            }
                            t
                        } else {
                            let (mk, mv, r2) = r.pop_min_pair();
                            proof {
                                assert(r.as_map().dom().contains(*mk));
                                assert(below(l.as_map().dom(), *mk)) by {
                                    assert forall|x: K| #[trigger] l.as_map().dom().contains(x)
                                        implies lt(x, *mk) by {
                                        assert(r.as_map().dom().contains(*mk));
                                    }
                                }
                            }
                            let t = Self::link(mk, mv, l, &r2);
                            proof {
                                assert(t.entries() =~= l.entries() + r.entries());
                                assert(!l.as_map().dom().contains(*mk));
                                assert(t.as_map() =~= l.as_map().union_prefer_right(r.as_map()));
                            }
                            t
                        }
                    },
                }
            },
        }
    }

    /// Removes the binding of `k`, requiring that one exists.
    fn remove_existing(&self, k: &K) -> (t: Self)
        requires
            self.wf(),
            self.balanced(),
            self.as_map().dom().contains(*k),
        ensures
            t.wf(),
            t.balanced(),
            t.as_map() == self.as_map().remove(*k),
            t.entries().len() == self.entries().len() - 1,
        decreases self,
    {
        match self {
            Tree::Empty => unreached(),
            Tree::Node(n) => {
                match k.compare(&*n.key) {
                    Cmp::Lt => {
                        proof {
                            assert(!n.right.as_map().dom().contains(*k)) by {
                                if n.right.as_map().dom().contains(*k) {
                                    lemma_lt_trans(*k, *n.key, *k);
                                }
                            }
                            assert(n.left.as_map().dom().contains(*k));
                        }
                        let nl = n.left.remove_existing(k);
                        proof {
                            assert forall|x: K| #[trigger] nl.as_map().dom().contains(x)
                                implies lt(x, *n.key) by {
                                assert(n.left.as_map().dom().contains(x));
                            }
                        }
                        let t = Self::rebalance(n.key.clone(), n.value.clone(), &nl, &n.right, Ghost((0int, 0int)));
                        proof {
                            assert(t.as_map() =~= self.as_map().remove(*k));
                        }
                        t
                    },
                    Cmp::Eq => {
                        proof {
                            assert(separated(
                                n.left.as_map().dom(),
                                n.right.as_map().dom(),
                            )) by {
                                assert forall|x: K, y: K|
                                    #[trigger] n.left.as_map().dom().contains(x)
                                    && #[trigger] n.right.as_map().dom().contains(y)
                                    implies lt(x, y) by {
                                    lemma_lt_trans(x, *n.key, y);
                                }
                            }
                        }
                        let t = Self::concat(&n.left, &n.right);
                        proof {
                            assert(!n.left.as_map().dom().contains(*k));
                            assert(!n.right.as_map().dom().contains(*k));
                            assert(t.as_map() =~= self.as_map().remove(*k));
                        }
                        t
                    },
                    Cmp::Gt => {
                        proof {
                            assert(!n.left.as_map().dom().contains(*k)) by {
                                if n.left.as_map().dom().contains(*k) {
                                    lemma_lt_trans(*k, *n.key, *k);
                                }
                            }
                            assert(n.right.as_map().dom().contains(*k));
                        }
                        let nr = n.right.remove_existing(k);
                        proof {
                            assert forall|x: K| #[trigger] nr.as_map().dom().contains(x)
                                implies lt(*n.key, x) by {
                                assert(n.right.as_map().dom().contains(x));
                            }
                        }
                        let t = Self::rebalance(n.key.clone(), n.value.clone(), &n.left, &nr, Ghost((0int, 0int)));
                        proof {
                            assert(t.as_map() =~= self.as_map().remove(*k));
                        }
                        t
                    },
                }
            },
        }
    }

    /// New version of the tree without a binding for `k`. When `k` is
    /// absent the result is the input itself, shared, not a rebuilt copy.
    pub fn delete(&self, k: &K) -> (t: Self)
        requires
            self.wf(),
            self.balanced(),
        ensures
            t.wf(),
            t.balanced(),
            t.as_map() == self.as_map().remove(*k),
            t.entries().len() == self.entries().len() - (if self.as_map().dom().contains(*k) {
                1int
            } else {
                0int
            }),
            !self.as_map().dom().contains(*k) ==> t == *self,
    {
        if self.contains_key(k) {
            self.remove_existing(k)
        } else {
            let t = self.dup();
            proof {
                assert(t.as_map() =~= self.as_map().remove(*k));
            }
            t
        }
    }

    /// Splits at `k`: entries under `k`, the binding of `k` if any, and the
    /// entries over `k`, as two independently balanced trees.
    pub fn split_pair(&self, k: &K) -> (res: (Self, Option<Arc<V>>, Self))
        requires
            self.wf(),
            self.balanced(),
        ensures
            res.0.wf(),
            res.2.wf(),
            res.0.balanced(),
            res.2.balanced(),
            res.0.as_map() == self.as_map().restrict(Set::new(|x: K| lt(x, *k))),
            res.2.as_map() == self.as_map().restrict(Set::new(|x: K| lt(*k, x))),
            (match res.1 {
                Some(v) => self.as_map().dom().contains(*k) && self.as_map()[*k] == *v,
                None => !self.as_map().dom().contains(*k),
            }),
            below(res.0.as_map().dom(), *k),
            above(res.2.as_map().dom(), *k),
            res.0.entries().len() + res.2.entries().len() + (if self.as_map().dom().contains(*k) {
                1int
            } else {
                0int
            }) == self.entries().len(),
        decreases self,
    {
        match self {
            Tree::Empty => {
                let res = (Tree::Empty, None, Tree::Empty);
                proof {
                    assert(res.0.as_map() =~= self.as_map().restrict(Set::new(|x: K| lt(x, *k))));
                    assert(res.2.as_map() =~= self.as_map().restrict(Set::new(|x: K| lt(*k, x))));
                }
                res
            },
            Tree::Node(n) => {
                proof {
                    assert forall|x: K, y: K|
                        #[trigger] n.left.as_map().dom().contains(x)
                        && #[trigger] n.right.as_map().dom().contains(y)
                        implies lt(x, y) by {
                        lemma_lt_trans(x, *n.key, y);
                    }
                }
                match k.compare(&*n.key) {
                    Cmp::Eq => {
                        let res = (n.left.dup(), Some(n.value.clone()), n.right.dup());
                        proof {
                            assert forall|x: K| #[trigger] n.left.as_map().dom().contains(x)
                                implies !n.right.as_map().dom().contains(x) && lt(x, *k)
                                && !lt(*k, x) by {
                                if n.right.as_map().dom().contains(x) {
                                    lemma_lt_trans(x, *n.key, x);
                                }
                                lemma_lt_asym(x, *k);
                            }
                            assert forall|x: K| #[trigger] n.right.as_map().dom().contains(x)
                                implies !n.left.as_map().dom().contains(x) && lt(*k, x)
                                && !lt(x, *k) by {
                                if n.left.as_map().dom().contains(x) {
                                    lemma_lt_trans(x, *n.key, x);
                                }
                                lemma_lt_asym(*k, x);
                            }
                            assert(res.0.as_map() =~= self.as_map().restrict(
                                Set::new(|x: K| lt(x, *k)),
                            ));
                            assert(res.2.as_map() =~= self.as_map().restrict(
                                Set::new(|x: K| lt(*k, x)),
                            ));
                        }
                        res
                    },
                    Cmp::Lt => {
                        proof {
                            assert(!n.right.as_map().dom().contains(*k)) by {
                                if n.right.as_map().dom().contains(*k) {
                                    lemma_lt_trans(*k, *n.key, *k);
                                }
                            }
                            assert(above(n.right.as_map().dom(), *k)) by {
                                assert forall|x: K| #[trigger] n.right.as_map().dom().contains(x)
                                    implies lt(*k, x) by {
                                    lemma_lt_trans(*k, *n.key, x);
                                }
                            }
                        }
                        let (sl, m, sr) = n.left.split_pair(k);
                        proof {
                            assert forall|x: K| #[trigger] sr.as_map().dom().contains(x)
                                implies lt(x, *n.key) by {
                                assert(n.left.as_map().dom().contains(x));
                            }
                            assert(!lt(*n.key, *k)) by {
                                lemma_lt_asym(*k, *n.key);
                            }
                            assert forall|x: K| #[trigger] n.left.as_map().dom().contains(x)
                                implies !n.right.as_map().dom().contains(x) by {
                                if n.right.as_map().dom().contains(x) {
                                    lemma_lt_trans(x, *n.key, x);
                                }
                            }
                            assert forall|x: K| #[trigger] n.right.as_map().dom().contains(x)
                                implies !lt(x, *k) by {
                                lemma_le_lt_trans(*k, *n.key, x);
                                lemma_lt_asym(*k, x);
                            }
                        }
                        let t2 = Self::link(n.key.clone(), n.value.clone(), &sr, &n.right);
                        let res = (sl, m, t2);
                        proof {
                            assert(res.0.as_map() =~= self.as_map().restrict(
                                Set::new(|x: K| lt(x, *k)),
                            ));
                            assert(res.2.as_map() =~= self.as_map().restrict(
                                Set::new(|x: K| lt(*k, x)),
                            ));
                            assert forall|x: K| #[trigger] res.2.as_map().dom().contains(x)
                                implies lt(*k, x) by {
                                if x == *n.key {
                                } else if n.right.as_map().dom().contains(x) {
                                    lemma_lt_trans(*k, *n.key, x);
                                }
                            }
                        }
                        res
                    },
                    Cmp::Gt => {
                        proof {
                            assert(!n.left.as_map().dom().contains(*k)) by {
                                if n.left.as_map().dom().contains(*k) {
                                    lemma_lt_trans(*k, *n.key, *k);
                                }
                            }
                            assert(below(n.left.as_map().dom(), *k)) by {
                                assert forall|x: K| #[trigger] n.left.as_map().dom().contains(x)
                                    implies lt(x, *k) by {
                                    lemma_lt_trans(x, *n.key, *k);
                                }
                            }
                        }
                        let (sl, m, sr) = n.right.split_pair(k);
                        proof {
                            assert forall|x: K| #[trigger] sl.as_map().dom().contains(x)
                                implies lt(*n.key, x) by {
                                assert(n.right.as_map().dom().contains(x));
                            }
                            assert(!lt(*k, *n.key)) by {
                                lemma_lt_asym(*n.key, *k);
                            }
                            assert forall|x: K| #[trigger] n.right.as_map().dom().contains(x)
                                implies !n.left.as_map().dom().contains(x) by {
                                if n.left.as_map().dom().contains(x) {
                                    lemma_lt_trans(x, *n.key, x);
                                }
                            }
                            assert forall|x: K| #[trigger] n.left.as_map().dom().contains(x)
                                implies !lt(*k, x) by {
                                lemma_lt_le_trans(x, *n.key, *k);
                                lemma_lt_asym(x, *k);
                            }
                        }
                        let t0 = Self::link(n.key.clone(), n.value.clone(), &n.left, &sl);
                        let res = (t0, m, sr);
                        proof {
                            assert(res.0.as_map() =~= self.as_map().restrict(
                                Set::new(|x: K| lt(x, *k)),
                            ));
                            assert(res.2.as_map() =~= self.as_map().restrict(
                                Set::new(|x: K| lt(*k, x)),
                            ));
                            assert forall|x: K| #[trigger] res.0.as_map().dom().contains(x)
                                implies lt(x, *k) by {
                                if x == *n.key {
                                } else if n.left.as_map().dom().contains(x) {
                                    lemma_lt_trans(x, *n.key, *k);
                                }
                            }
                        }
                        res
                    },
                }
            },
        }
    }

    /// Entries under `k` and entries over `k`; a binding of `k` itself is
    /// discarded.
    pub fn split(&self, k: &K) -> (res: (Self, Self))
        requires
            self.wf(),
            self.balanced(),
        ensures
            res.0.wf(),
            res.1.wf(),
            res.0.balanced(),
            res.1.balanced(),
            res.0.as_map() == self.as_map().restrict(Set::new(|x: K| lt(x, *k))),
            res.1.as_map() == self.as_map().restrict(Set::new(|x: K| lt(*k, x))),
            below(res.0.as_map().dom(), *k),
            above(res.1.as_map().dom(), *k),
            res.0.entries().len() + res.1.entries().len() + (if self.as_map().dom().contains(*k) {
                1int
            } else {
                0int
            }) == self.entries().len(),
    {
        let (a, _, b) = self.split_pair(k);
        (a, b)
    }

    /// Union of two trees; on a key present in both, the value of `self`
    /// is the one kept.
    pub fn union_with(&self, other: &Self) -> (t: Self)
        requires
            self.wf(),
            other.wf(),
            self.balanced(),
            other.balanced(),
            self.entries().len() + other.entries().len() <= usize::MAX,
        ensures
            t.wf(),
            t.balanced(),
            t.as_map() == other.as_map().union_prefer_right(self.as_map()),
            t.entries().len() <= self.entries().len() + other.entries().len(),
        decreases self.entries().len() + other.entries().len(),
    {
        match self {
            Tree::Empty => {
                let t = other.dup();
                proof {
                    assert(t.as_map() =~= other.as_map().union_prefer_right(self.as_map()));
                }
                t
            },
            Tree::Node(n) => {
                match other {
                    Tree::Empty => {
                        let t = self.dup();
                        proof {
                            assert(t.as_map() =~= other.as_map().union_prefer_right(
                                self.as_map(),
                            ));
                        }
                        t
                    },
                    Tree::Node(_) => {
                        let (sl, sr) = other.split(&n.key);
                        let ul = n.left.union_with(&sl);
                        let ur = n.right.union_with(&sr);
                        proof {
                            assert forall|x: K| #[trigger] ul.as_map().dom().contains(x)
                                implies lt(x, *n.key) by {
                                if !sl.as_map().dom().contains(x) {
                                    assert(n.left.as_map().dom().contains(x));
                                }
                            }
                            assert forall|x: K| #[trigger] ur.as_map().dom().contains(x)
                                implies lt(*n.key, x) by {
                                if !sr.as_map().dom().contains(x) {
                                    assert(n.right.as_map().dom().contains(x));
                                }
                            }
                        }
                        let t = Self::link(n.key.clone(), n.value.clone(), &ul, &ur);
                        proof {
                            assert forall|x: K| #[trigger] ul.as_map().dom().contains(x)
                                implies !ur.as_map().dom().contains(x)
                                && !n.right.as_map().dom().contains(x)
                                && !sr.as_map().dom().contains(x) && x != *n.key by {
                                if ur.as_map().dom().contains(x) {
                                    lemma_lt_trans(x, *n.key, x);
                                }
                                if n.right.as_map().dom().contains(x) {
                                    lemma_lt_trans(x, *n.key, x);
                                }
                                if sr.as_map().dom().contains(x) {
                                    lemma_lt_trans(x, *n.key, x);
                                }
                            }
                            assert forall|x: K| #[trigger] ur.as_map().dom().contains(x)
                                implies !n.left.as_map().dom().contains(x)
                                && !sl.as_map().dom().contains(x) && x != *n.key by {
                                if n.left.as_map().dom().contains(x) {
                                    lemma_lt_trans(x, *n.key, x);
                                }
                                if sl.as_map().dom().contains(x) {
                                    lemma_lt_trans(x, *n.key, x);
                                }
                            }
                            assert forall|x: K| #[trigger] other.as_map().dom().contains(x)
                                && x != *n.key
                                implies (lt(x, *n.key) ==> sl.as_map().dom().contains(x))
                                && (!lt(x, *n.key) ==> sr.as_map().dom().contains(x)) by {
                                if !lt(x, *n.key) && x != *n.key {
                                    K::lemma_total(x, *n.key);
                                }
                            }
                            assert(t.as_map() =~= other.as_map().union_prefer_right(
                                self.as_map(),
                            ));
                        }
                        t
                    },
                }
            },
        }
    }

    /// Entries of `self` whose key also appears in `other`; values come
    /// from `self`.
    pub fn intersect_with(&self, other: &Self) -> (t: Self)
        requires
            self.wf(),
            other.wf(),
            self.balanced(),
            other.balanced(),
        ensures
            t.wf(),
            t.balanced(),
            t.as_map() == self.as_map().restrict(other.as_map().dom()),
            t.entries().len() <= self.entries().len(),
        decreases self.entries().len() + other.entries().len(),
    {
        match self {
            Tree::Empty => {
                proof {
                    assert(self.as_map().restrict(other.as_map().dom()) =~= Map::<K, V>::empty());
                }
                Tree::Empty
            },
            Tree::Node(n) => {
                match other {
                    Tree::Empty => {
                        proof {
                            assert(self.as_map().restrict(other.as_map().dom())
                                =~= Map::<K, V>::empty());
                        }
                        Tree::Empty
                    },
                    Tree::Node(_) => {
                        let (sl, m, sr) = other.split_pair(&n.key);
                        let il = n.left.intersect_with(&sl);
                        let ir = n.right.intersect_with(&sr);
                        proof {
                            assert forall|x: K| #[trigger] il.as_map().dom().contains(x)
                                implies lt(x, *n.key) by {
                                assert(n.left.as_map().dom().contains(x));
                            }
                            assert forall|x: K| #[trigger] ir.as_map().dom().contains(x)
                                implies lt(*n.key, x) by {
                                assert(n.right.as_map().dom().contains(x));
                            }
                        }
                        let t = match m {
                            Some(_) => Self::link(n.key.clone(), n.value.clone(), &il, &ir),
                            None => {
                                proof {
                                    assert forall|x: K, y: K|
                                        #[trigger] il.as_map().dom().contains(x)
                                        && #[trigger] ir.as_map().dom().contains(y)
                                        implies lt(x, y) by {
                                        lemma_lt_trans(x, *n.key, y);
                                    }
                                }
                                Self::concat(&il, &ir)
                            },
                        };
                        proof {
                            assert forall|x: K| #[trigger] n.left.as_map().dom().contains(x)
                                implies !n.right.as_map().dom().contains(x) && x != *n.key by {
                                if n.right.as_map().dom().contains(x) {
                                    lemma_lt_trans(x, *n.key, x);
                                }
                            }
                            assert forall|x: K|
                                #[trigger] other.as_map().dom().contains(x) && x != *n.key
                                implies (lt(x, *n.key) ==> sl.as_map().dom().contains(x))
                                && (lt(*n.key, x) ==> sr.as_map().dom().contains(x)) by {
                            }
                            assert forall|x: K| #[trigger] il.as_map().dom().contains(x)
                                implies !n.right.as_map().dom().contains(x)
                                && !ir.as_map().dom().contains(x) by {
                                if n.right.as_map().dom().contains(x) {
                                    lemma_lt_trans(x, *n.key, x);
                                }
                                if ir.as_map().dom().contains(x) {
                                    lemma_lt_trans(x, *n.key, x);
                                }
                            }
                            assert(t.as_map() =~= self.as_map().restrict(other.as_map().dom()));
                        }
                        t
                    },
                }
            },
        }
    }

    /// Entries of `self` whose key does not appear in `other`.
    pub fn difference_with(&self, other: &Self) -> (t: Self)
        requires
            self.wf(),
            other.wf(),
            self.balanced(),
            other.balanced(),
        ensures
            t.wf(),
            t.balanced(),
            t.as_map() == self.as_map().remove_keys(other.as_map().dom()),
            t.entries().len() <= self.entries().len(),
        decreases self.entries().len() + other.entries().len(),
    {
        match other {
            Tree::Empty => {
                let t = self.dup();
                proof {
                    assert(t.as_map() =~= self.as_map().remove_keys(other.as_map().dom()));
                }
                t
            },
            Tree::Node(n) => {
                match self {
                    Tree::Empty => {
                        proof {
                            assert(self.as_map().remove_keys(other.as_map().dom())
                                =~= Map::<K, V>::empty());
                        }
                        Tree::Empty
                    },
                    Tree::Node(_) => {
                        let (sl, _, sr) = self.split_pair(&n.key);
                        let dl = sl.difference_with(&n.left);
                        let dr = sr.difference_with(&n.right);
                        proof {
                            assert forall|x: K, y: K|
                                #[trigger] dl.as_map().dom().contains(x)
                                && #[trigger] dr.as_map().dom().contains(y)
                                implies lt(x, y) by {
                                assert(sl.as_map().dom().contains(x));
                                assert(sr.as_map().dom().contains(y));
                                lemma_lt_trans(x, *n.key, y);
                            }
                        }
                        let t = Self::concat(&dl, &dr);
                        proof {
                            assert forall|x: K|
                                #[trigger] self.as_map().dom().contains(x) && x != *n.key
                                implies (lt(x, *n.key) ==> sl.as_map().dom().contains(x))
                                && (!lt(x, *n.key) ==> sr.as_map().dom().contains(x)) by {
                                if !lt(x, *n.key) && x != *n.key {
                                    K::lemma_total(x, *n.key);
                                }
                            }
                            assert forall|x: K| #[trigger] sl.as_map().dom().contains(x)
                                implies !n.right.as_map().dom().contains(x) && x != *n.key by {
                                if n.right.as_map().dom().contains(x) {
                                    lemma_lt_trans(x, *n.key, x);
                                }
                            }
                            assert forall|x: K| #[trigger] sr.as_map().dom().contains(x)
                                implies !n.left.as_map().dom().contains(x) && x != *n.key by {
                                if n.left.as_map().dom().contains(x) {
                                    lemma_lt_trans(x, *n.key, x);
                                }
                            }
                            assert(t.as_map() =~= self.as_map().remove_keys(
                                other.as_map().dom(),
                            ));
                        }
                        t
                    },
                }
            },
        }
    }
    /// Whether every binding of `self` also stands in `other`, with an
    /// equal value.
    pub fn is_submap_of(&self, other: &Self) -> (r: bool) where V: ValueEq
        requires
            self.wf(),
            other.wf(),
            self.balanced(),
            other.balanced(),
        ensures
            r == self.as_map().submap_of(other.as_map()),
        decreases self,
    {
        match self {
            Tree::Empty => true,
            Tree::Node(n) => {
                proof {
                    assert forall|x: K| #[trigger] n.left.as_map().dom().contains(x)
                        implies !n.right.as_map().dom().contains(x) && x != *n.key by {
                        if n.right.as_map().dom().contains(x) {
                            lemma_lt_trans(x, *n.key, x);
                        }
                    }
                    assert(self.as_map().dom().contains(*n.key));
                    assert(self.as_map()[*n.key] == *n.value);
                }
                let (sl, m, sr) = other.split_pair(&n.key);
                match m {
                    None => {
                        proof {
                            assert(!self.as_map().submap_of(other.as_map()));
                        }
                        false
                    },
                    Some(v2) => {
                        if !n.value.value_eq(&*v2) {
                            proof {
                                assert(!self.as_map().submap_of(other.as_map()));
                            }
                            false
                        } else {
                            let bl = n.left.is_submap_of(&sl);
                            if !bl {
                                proof {
                                    if self.as_map().submap_of(other.as_map()) {
                                        assert forall|x: K|
                                            #[trigger] n.left.as_map().dom().contains(x)
                                            implies sl.as_map().dom().contains(x)
                                            && n.left.as_map()[x] == sl.as_map()[x] by {
                                            assert(self.as_map().dom().contains(x));
                                            assert(self.as_map()[x] == n.left.as_map()[x]);
                                            assert(other.as_map().dom().contains(x));
                                        }
                                        assert(n.left.as_map().submap_of(sl.as_map()));
                                        assert(false);
                                    }
                                }
                                false
                            } else {
                                let br = n.right.is_submap_of(&sr);
                                proof {
                                    assert forall|x: K|
                                        #[trigger] n.right.as_map().dom().contains(x)
                                        implies !n.left.as_map().dom().contains(x)
                                        && x != *n.key by {
                                        if n.left.as_map().dom().contains(x) {
                                            lemma_lt_trans(x, *n.key, x);
                                        }
                                    }
                                    if br {
                                        assert forall|x: K|
                                            #[trigger] self.as_map().dom().contains(x)
                                            implies other.as_map().dom().contains(x)
                                            && self.as_map()[x] == other.as_map()[x] by {
                                            if x == *n.key {
                                            } else if n.left.as_map().dom().contains(x) {
                                                assert(sl.as_map().dom().contains(x));
                                            } else {
                                                assert(n.right.as_map().dom().contains(x));
                                                assert(sr.as_map().dom().contains(x));
                                            }
                                        }
                                        assert(self.as_map().submap_of(other.as_map()));
                                    } else {
                                        if self.as_map().submap_of(other.as_map()) {
                                            assert forall|x: K|
                                                #[trigger] n.right.as_map().dom().contains(x)
                                                implies sr.as_map().dom().contains(x)
                                                && n.right.as_map()[x] == sr.as_map()[x] by {
                                                assert(self.as_map().dom().contains(x));
                                                assert(self.as_map()[x]
                                                    == n.right.as_map()[x]);
                                                assert(other.as_map().dom().contains(x));
                                            }
                                            assert(n.right.as_map().submap_of(sr.as_map()));
                                            assert(false);
                                        }
                                    }
                                }
                                br
                            }
                        }
                    },
                }
            },
        }
    }

    /// Whether `self` is a submap of `other` and `other` holds at least
    /// one more binding.
    pub fn is_proper_submap_of(&self, other: &Self) -> (r: bool) where V: ValueEq
        requires
            self.wf(),
            other.wf(),
            self.balanced(),
            other.balanced(),
        ensures
            r == (self.as_map().submap_of(other.as_map()) && self.as_map() != other.as_map()),
    {
        let sub = self.is_submap_of(other);
        let r = sub && self.size() != other.size();
        proof {
            self.lemma_model();
            other.lemma_model();
            if sub {
                assert(self.as_map().submap_of(other.as_map()));
                if self.entries().len() == other.entries().len() {
                    assert forall|x: K| #[trigger] other.as_map().dom().contains(x)
                        implies self.as_map().dom().contains(x) by {
                        if !self.as_map().dom().contains(x) {
                            assert(self.as_map().dom().subset_of(
                                other.as_map().dom().remove(x),
                            ));
                            vstd::set_lib::lemma_len_subset(
                                self.as_map().dom(),
                                other.as_map().dom().remove(x),
                            );
                        }
                    }
                    assert forall|x: K| #[trigger] self.as_map().dom().contains(x)
                        implies self.as_map()[x] == other.as_map()[x] by {
                        let b = other.as_map().dom().contains(x);
                        assert(b == other.as_map().dom().contains(x));
                    }
                    assert(self.as_map() =~= other.as_map());
                }
            }
        }
        r
    }

    /// The first `m` entries in ascending key order, or the whole tree
    /// when it has no more than `m` entries.
    #[verifier::rlimit(60)]
    pub fn take_n(&self, m: usize) -> (t: Self)
        requires
            self.wf(),
            self.balanced(),
        ensures
            t.wf(),
            t.balanced(),
            t.entries() == self.entries().take(if m <= self.entries().len() {
                m as int
            } else {
                self.entries().len() as int
            }),
            t.as_map().submap_of(self.as_map()),
        decreases self,
    {
        let sz = self.size();
        if m >= sz {
            let t = self.dup();
            proof {
                assert(t.entries() =~= self.entries().take(self.entries().len() as int));
            }
            return t;
        }
        match self {
            Tree::Empty => unreached(),
            Tree::Node(n) => {
                proof {
                    assert forall|x: K| #[trigger] n.left.as_map().dom().contains(x)
                        implies !n.right.as_map().dom().contains(x) && x != *n.key by {
                        if n.right.as_map().dom().contains(x) {
                            lemma_lt_trans(x, *n.key, x);
                        }
                    }
                }
                let ls = n.left.size();
                if m <= ls {
                    let t = n.left.take_n(m);
                    proof {
                        assert(t.entries() =~= self.entries().take(m as int));
                        assert forall|x: K| #[trigger] t.as_map().dom().contains(x)
                            implies self.as_map().dom().contains(x)
                            && t.as_map()[x] == self.as_map()[x] by {
                            assert(n.left.as_map().dom().contains(x));
                            assert(n.left.as_map()[x] == t.as_map()[x]);
                        }
                    }
                    t
                } else {
                    let tr = n.right.take_n(m - ls - 1);
                    proof {
                        assert forall|x: K| #[trigger] tr.as_map().dom().contains(x)
                            implies lt(*n.key, x) && !n.left.as_map().dom().contains(x) by {
                            assert(n.right.as_map().dom().contains(x));
                            if n.left.as_map().dom().contains(x) {
                                lemma_lt_trans(x, *n.key, x);
                            }
                        }
                    }
                    let t = Self::link(n.key.clone(), n.value.clone(), &n.left, &tr);
                    proof {
                        assert(t.entries() =~= self.entries().take(m as int));
                        assert forall|x: K| #[trigger] t.as_map().dom().contains(x)
                            implies self.as_map().dom().contains(x)
                            && t.as_map()[x] == self.as_map()[x] by {
                            if x != *n.key && !n.left.as_map().dom().contains(x) {
                                assert(tr.as_map().dom().contains(x));
                                assert(n.right.as_map().dom().contains(x));
                                assert(n.right.as_map()[x] == tr.as_map()[x]);
                            }
                        }
                    }
                    t
                }
            },
        }
    }

    /// Everything after the first `m` entries in ascending key order.
    #[verifier::rlimit(60)]
    pub fn drop_n(&self, m: usize) -> (t: Self)
        requires
            self.wf(),
            self.balanced(),
        ensures
            t.wf(),
            t.balanced(),
            t.entries() == self.entries().skip(if m <= self.entries().len() {
                m as int
            } else {
                self.entries().len() as int
            }),
            t.as_map().submap_of(self.as_map()),
        decreases self,
    {
        let sz = self.size();
        if m >= sz {
            proof {
                assert(Tree::<K, V>::Empty.entries() =~= self.entries().skip(
                    self.entries().len() as int,
                ));
                assert(Map::<K, V>::empty().submap_of(self.as_map()));
            }
            return Tree::Empty;
        }
        match self {
            Tree::Empty => unreached(),
            Tree::Node(n) => {
                proof {
                    assert forall|x: K| #[trigger] n.right.as_map().dom().contains(x)
                        implies !n.left.as_map().dom().contains(x) && x != *n.key by {
                        if n.left.as_map().dom().contains(x) {
                            lemma_lt_trans(x, *n.key, x);
                        }
                    }
                }
                let ls = n.left.size();
                if m > ls {
                    let t = n.right.drop_n(m - ls - 1);
                    proof {
                        assert(t.entries() =~= self.entries().skip(m as int));
                        assert forall|x: K| #[trigger] t.as_map().dom().contains(x)
                            implies self.as_map().dom().contains(x)
                            && t.as_map()[x] == self.as_map()[x] by {
                            assert(n.right.as_map().dom().contains(x));
                            assert(n.right.as_map()[x] == t.as_map()[x]);
                        }
                    }
                    t
                } else {
                    let tl = n.left.drop_n(m);
                    proof {
                        assert forall|x: K| #[trigger] tl.as_map().dom().contains(x)
                            implies lt(x, *n.key) && !n.right.as_map().dom().contains(x) by {
                            assert(n.left.as_map().dom().contains(x));
                            if n.right.as_map().dom().contains(x) {
                                lemma_lt_trans(x, *n.key, x);
                            }
                        }
                    }
                    let t = Self::link(n.key.clone(), n.value.clone(), &tl, &n.right);
                    proof {
                        assert(t.entries() =~= self.entries().skip(m as int));
                        assert forall|x: K| #[trigger] t.as_map().dom().contains(x)
                            implies self.as_map().dom().contains(x)
                            && t.as_map()[x] == self.as_map()[x] by {
                            if x != *n.key && !n.right.as_map().dom().contains(x) {
                                assert(tl.as_map().dom().contains(x));
                                assert(n.left.as_map().dom().contains(x));
                                assert(n.left.as_map()[x] == tl.as_map()[x]);
                            }
                        }
                    }
                    t
                }
            },
        }
    }

    /// The least entry, shared with the tree, or nothing when it is empty.
    pub fn lookup_min_pair(&self) -> (r: Option<(Arc<K>, Arc<V>)>)
        requires
            self.wf(),
        ensures
            (match r {
                Some(p) => self.entries().len() > 0 && self.entries().first() == (*p.0, *p.1),
                None => self.entries().len() == 0,
            }),
        decreases self,
    {
        match self {
            Tree::Empty => None,
            Tree::Node(n) => {
                match &n.left {
                    Tree::Empty => Some((n.key.clone(), n.value.clone())),
                    Tree::Node(_) => n.left.lookup_min_pair(),
                }
            },
        }
    }

    /// The greatest entry, shared with the tree, or nothing when empty.
    pub fn lookup_max_pair(&self) -> (r: Option<(Arc<K>, Arc<V>)>)
        requires
            self.wf(),
        ensures
            (match r {
                Some(p) => self.entries().len() > 0 && self.entries().last() == (*p.0, *p.1),
                None => self.entries().len() == 0,
            }),
        decreases self,
    {
        match self {
            Tree::Empty => None,
            Tree::Node(n) => {
                match &n.right {
                    Tree::Empty => Some((n.key.clone(), n.value.clone())),
                    Tree::Node(_) => n.right.lookup_max_pair(),
                }
            },
        }
    }

    /// The bridge between the two views: under `wf`, the entry sequence is
    /// strictly ascending, each entry is a binding of the map, and the map
    /// has exactly as many bindings as the sequence has entries.
    pub proof fn lemma_model(&self)
        requires
            self.wf(),
        ensures
            self.as_map().dom().finite(),
            self.as_map().dom().len() == self.entries().len(),
            forall|i: int| 0 <= i < self.entries().len()
                ==> #[trigger] self.as_map().dom().contains(self.entries()[i].0)
                && self.as_map()[self.entries()[i].0] == self.entries()[i].1,
            forall|x: K| #[trigger] self.as_map().dom().contains(x)
                ==> exists|i: int| 0 <= i < self.entries().len() && self.entries()[i].0 == x,
            forall|i: int, j: int| 0 <= i < j < self.entries().len()
                ==> lt(#[trigger] self.entries()[i].0, #[trigger] self.entries()[j].0),
        decreases self,
    {
        match self {
            Tree::Empty => {
                assert(Map::<K, V>::empty().dom() =~= Set::<K>::empty());
            },
            Tree::Node(n) => {
                n.left.lemma_model();
                n.right.lemma_model();
                let m = n.left.entries().len() as int;
                assert forall|x: K| #[trigger] n.left.as_map().dom().contains(x)
                    implies !n.right.as_map().dom().contains(x) && x != *n.key by {
                    if n.right.as_map().dom().contains(x) {
                        lemma_lt_trans(x, *n.key, x);
                    }
                }
                assert(n.left.as_map().dom().disjoint(n.right.as_map().dom()));
                vstd::set_lib::lemma_set_disjoint_lens(
                    n.left.as_map().dom(),
                    n.right.as_map().dom(),
                );
                assert(self.as_map().dom() =~= (n.left.as_map().dom()
                    + n.right.as_map().dom()).insert(*n.key));
                assert(!(n.left.as_map().dom() + n.right.as_map().dom()).contains(*n.key));
                assert(self.as_map().dom().len() == n.left.as_map().dom().len()
                    + n.right.as_map().dom().len() + 1);
                assert forall|i: int| 0 <= i < self.entries().len()
                    implies #[trigger] self.as_map().dom().contains(self.entries()[i].0)
                    && self.as_map()[self.entries()[i].0] == self.entries()[i].1 by {
                    if i < m {
                        assert(self.entries()[i] == n.left.entries()[i]);
                        assert(n.left.as_map().dom().contains(n.left.entries()[i].0));
                        assert(self.as_map()[n.left.entries()[i].0]
                            == n.left.as_map()[n.left.entries()[i].0]);
                    } else if i == m {
                        assert(self.entries()[i] == (*n.key, *n.value));
                    } else {
                        assert(self.entries()[i] == n.right.entries()[i - m - 1]);
                        assert(n.right.as_map().dom().contains(
                            n.right.entries()[i - m - 1].0,
                        ));
                        assert(n.right.entries()[i - m - 1].0 != *n.key);
                        assert(self.as_map()[n.right.entries()[i - m - 1].0]
                            == n.right.as_map()[n.right.entries()[i - m - 1].0]);
                    }
                }
                assert forall|x: K| #[trigger] self.as_map().dom().contains(x)
                    implies exists|i: int|
                        0 <= i < self.entries().len() && self.entries()[i].0 == x by {
                    if x == *n.key {
                        assert(self.entries()[m].0 == x);
                    } else if n.left.as_map().dom().contains(x) {
                        let i = choose|i: int|
                            0 <= i < n.left.entries().len() && n.left.entries()[i].0 == x;
                        assert(self.entries()[i].0 == x);
                    } else {
                        let i = choose|i: int|
                            0 <= i < n.right.entries().len() && n.right.entries()[i].0 == x;
                        assert(self.entries()[m + 1 + i].0 == x);
                    }
                }
                assert forall|i: int, j: int| 0 <= i < j < self.entries().len()
                    implies lt(
                    #[trigger] self.entries()[i].0,
                    #[trigger] self.entries()[j].0,
                ) by {
                    if i < m && j < m {
                        assert(self.entries()[i] == n.left.entries()[i]);
                        assert(self.entries()[j] == n.left.entries()[j]);
                    } else if i < m && j == m {
                        assert(self.entries()[i] == n.left.entries()[i]);
                        assert(n.left.as_map().dom().contains(n.left.entries()[i].0));
                    } else if i < m {
                        assert(self.entries()[i] == n.left.entries()[i]);
                        assert(self.entries()[j] == n.right.entries()[j - m - 1]);
                        assert(n.left.as_map().dom().contains(n.left.entries()[i].0));
                        assert(n.right.as_map().dom().contains(
                            n.right.entries()[j - m - 1].0,
                        ));
                        lemma_lt_trans(
                            n.left.entries()[i].0,
                            *n.key,
                            n.right.entries()[j - m - 1].0,
                        );
                    } else if i == m {
                        assert(self.entries()[j] == n.right.entries()[j - m - 1]);
                        assert(n.right.as_map().dom().contains(
                            n.right.entries()[j - m - 1].0,
                        ));
                    } else {
                        assert(self.entries()[i] == n.right.entries()[i - m - 1]);
                        assert(self.entries()[j] == n.right.entries()[j - m - 1]);
                    }
                }
            },
        }
    }

    /// Re-derives every structural invariant: search order, cached sizes,
    /// and the weight-balance bound. A consistency oracle for testing, not
    /// a hot-path operation.
    pub fn valid(&self) -> (r: bool)
        ensures
            r == (self.wf() && self.balanced()),
        decreases self,
    {
        match self {
            Tree::Empty => true,
            Tree::Node(n) => {
                if !n.left.valid() {
                    return false;
                }
                if !n.right.valid() {
                    return false;
                }
                let ls = n.left.size();
                let rs = n.right.size();
                if (n.size as u128) != (ls as u128) + 1 + (rs as u128) {
                    return false;
                }
                if !((ls as u128) + (rs as u128) <= 1 || ((ls as u128) <= 3 * (rs as u128)
                    && (rs as u128) <= 3 * (ls as u128))) {
                    return false;
                }
                match n.left.lookup_max_pair() {
                    None => (),
                    Some((mk, _)) => {
                        match (&*mk).compare(&*n.key) {
                            Cmp::Lt => (),
                            _ => {
                                proof {
                                    if self.wf() {
                                        n.left.lemma_model();
                                        assert(n.left.as_map().dom().contains(
                                            n.left.entries().last().0,
                                        ));
                                        assert(lt(n.left.entries().last().0, *n.key));
                                        assert(false) by {
                                            lemma_lt_asym(n.left.entries().last().0, *n.key);
                                        }
                                    }
                                }
                                return false;
                            },
                        }
                    },
                }
                match n.right.lookup_min_pair() {
                    None => (),
                    Some((mk, _)) => {
                        match (&*mk).compare(&*n.key) {
                            Cmp::Gt => (),
                            _ => {
                                proof {
                                    if self.wf() {
                                        n.right.lemma_model();
                                        assert(n.right.as_map().dom().contains(
                                            n.right.entries().first().0,
                                        ));
                                        assert(lt(*n.key, n.right.entries().first().0));
                                        assert(false) by {
                                            lemma_lt_asym(*n.key, n.right.entries().first().0);
                                        }
                                    }
                                }
                                return false;
                            },
                        }
                    },
                }
                proof {
                    assert forall|x: K| #[trigger] n.left.as_map().dom().contains(x)
                        implies lt(x, *n.key) by {
                        n.left.lemma_model();
                        let i = choose|i: int|
                            0 <= i < n.left.entries().len() && n.left.entries()[i].0 == x;
                        if i < n.left.entries().len() - 1 {
                            lemma_lt_trans(x, n.left.entries().last().0, *n.key);
                        }
                    }
                    assert forall|x: K| #[trigger] n.right.as_map().dom().contains(x)
                        implies lt(*n.key, x) by {
                        n.right.lemma_model();
                        let i = choose|i: int|
                            0 <= i < n.right.entries().len() && n.right.entries()[i].0 == x;
                        if i > 0 {
                            lemma_lt_trans(*n.key, n.right.entries().first().0, x);
                        }
                    }
                }
                true
            },
        }
    }
}

/// The pending part of an in-order walk: the node on top of the stack is
/// next, then its right subtree, then the nodes deeper in the stack.
pub closed spec fn pending<K, V>(stack: Seq<Arc<Node<K, V>>>) -> Seq<(K, V)>
    decreases stack.len(),
{
    if stack.len() == 0 {
        Seq::empty()
    } else {
        (seq![(*stack.last().key, *stack.last().value)] + stack.last().right.entries())
            + pending(stack.drop_last())
    }
}

/// A lazy, single-pass, in-order iterator over one tree snapshot. The walk
/// is driven by an explicit stack, so traversal needs no recursion; the
/// snapshot itself is unaffected and can be iterated again from scratch.
pub struct TreeIter<K, V> {
    stack: Vec<Arc<Node<K, V>>>,
}

impl<K, V> TreeIter<K, V> {
    /// The entries the iterator has not yet produced, in ascending order.
    pub closed spec fn remaining(&self) -> Seq<(K, V)> {
        pending(self.stack@)
    }

    /// Pushes the left spine of `t`, scheduling all of `t` before
    /// everything already pending.
    fn push_left_edge(&mut self, t: &Tree<K, V>)
        ensures
            final(self).remaining() == t.entries() + old(self).remaining(),
        decreases t,
    {
        match t {
            Tree::Empty => {
                proof {
                    assert(self.remaining() =~= t.entries() + old(self).remaining());
                }
            },
            Tree::Node(n) => {
                let ghost s0 = self.stack@;
                self.stack.push(n.clone());
                proof {
                    assert(self.stack@.drop_last() =~= s0);
                    assert(self.remaining() == (seq![(*n.key, *n.value)] + n.right.entries())
                        + pending(s0));
                }
                self.push_left_edge(&n.left);
                proof {
                    assert(self.remaining() =~= t.entries() + pending(s0));
                }
            },
        }
    }

    /// The next entry of the walk, or nothing once the walk is finished.
    pub fn next(&mut self) -> (r: Option<(Arc<K>, Arc<V>)>)
        ensures
            (match r {
                Some(p) => old(self).remaining().len() > 0 && (*p.0, *p.1) == old(
                    self,
                ).remaining().first() && final(self).remaining()
                    == old(self).remaining().drop_first(),
                None => old(self).remaining().len() == 0 && final(self).remaining()
                    == old(self).remaining(),
            }),
    {
        let popped = self.stack.pop();
        match popped {
            None => {
                proof {
                    assert(self.stack@.len() == 0);
                }
                None
            },
            Some(n) => {
                proof {
                    assert(old(self).stack@.last() == n);
                    assert(old(self).stack@.drop_last() =~= self.stack@);
                    assert(old(self).remaining() == (seq![(*n.key, *n.value)]
                        + n.right.entries()) + pending(self.stack@));
                }
                let k = n.key.clone();
                let v = n.value.clone();
                self.push_left_edge(&n.right);
                proof {
                    assert(self.remaining() =~= old(self).remaining().drop_first());
                }
                Some((k, v))
            },
        }
    }
}

impl<K: TotalOrder, V> Tree<K, V> {
    /// Starts an in-order walk over a snapshot of the tree.
    pub fn iter(&self) -> (it: TreeIter<K, V>)
        ensures
            it.remaining() == self.entries(),
    {
        let mut it = TreeIter { stack: Vec::new() };
        proof {
            assert(it.remaining() =~= Seq::<(K, V)>::empty());
        }
        it.push_left_edge(self);
        proof {
            assert(it.remaining() =~= self.entries());
        }
        it
    }
}


} // verus!
