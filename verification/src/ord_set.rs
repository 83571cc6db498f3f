//! The set adapter: an ordered set of keys, realized as the tree engine
//! with every value fixed to the unit marker. Each operation delegates to
//! the engine and restates its contract over the set view.

use vstd::prelude::*;
use std::sync::Arc;
use crate::order::{TotalOrder, Cmp, lt};
use crate::tree::{Tree, TreeIter, below, above};
use vstd::pervasive::cloned;

verus! {

broadcast use vstd::map_lib::lemma_union_dom;

/// The fixed marker stored as the value of every entry.
pub struct Unit;

impl crate::order::ValueEq for Unit {
    fn value_eq(&self, other: &Self) -> (r: bool) {
        true
    }
}

/// A persistent ordered set: every "mutating" operation returns a new set
/// and leaves the receiver untouched; unchanged subtrees are shared.
pub struct OrdSet<A> {
    tree: Tree<A, Unit>,
}

impl<A: TotalOrder> View for OrdSet<A> {
    type V = Set<A>;

    closed spec fn view(&self) -> Set<A> {
        self.tree.as_map().dom()
    }
}

impl<A: TotalOrder> OrdSet<A> {
    /// The elements in ascending order.
    pub closed spec fn key_seq(&self) -> Seq<A> {
        self.tree.key_seq()
    }

    /// The structural invariant: search order and cached sizes hold.
    pub closed spec fn wf(&self) -> bool {
        self.tree.wf()
    }

    /// The weight-balance bound holds everywhere.
    pub closed spec fn balanced(&self) -> bool {
        self.tree.balanced()
    }

    /// The empty set.
    pub fn empty() -> (s: Self)
        ensures
            s.wf(),
            s.balanced(),
            s@ == Set::<A>::empty(),
            s.key_seq() == Seq::<A>::empty(),
    {
        let s = OrdSet { tree: Tree::empty() };
        proof {
            assert(s@ =~= Set::<A>::empty());
            assert(s.key_seq() =~= Seq::<A>::empty());
        }
        s
    }

    /// The one-element set.
    pub fn singleton(a: A) -> (s: Self)
        ensures
            s.wf(),
            s.balanced(),
            s@ == Set::<A>::empty().insert(a),
            s.key_seq() == seq![a],
    {
        let ghost g = a;
        let s = OrdSet { tree: Tree::singleton(Arc::new(a), Arc::new(Unit)) };
        proof {
            assert(s@ =~= Set::<A>::empty().insert(g));
            assert(s.key_seq() =~= seq![g]);
        }
        s
    }

    /// Number of elements, read from the root's cached size.
    pub fn size(&self) -> (n: usize)
        requires
            self.wf(),
        ensures
            n == self@.len(),
            n == self.key_seq().len(),
            self@.finite(),
    {
        proof {
            self.tree.lemma_model();
        }
        self.tree.size()
    }

    /// New set with `a` added; the input set is unchanged.
    pub fn insert(&self, a: A) -> (s: Self)
        requires
            self.wf(),
            self.balanced(),
            self.key_seq().len() < usize::MAX,
        ensures
            s.wf(),
            s.balanced(),
            s@ == self@.insert(a),
            s.key_seq().len() == self.key_seq().len() + (if self@.contains(a) {
                0int
            } else {
                1int
            }),
    {
        let ghost g = a;
        let s = OrdSet { tree: self.tree.insert_pair(Arc::new(a), Arc::new(Unit)) };
        proof {
            assert(s@ =~= self@.insert(g));
        }
        s
    }

    /// As `insert`, for an element already shared by reference count.
    pub fn insert_ref(&self, a: Arc<A>) -> (s: Self)
        requires
            self.wf(),
            self.balanced(),
            self.key_seq().len() < usize::MAX,
        ensures
            s.wf(),
            s.balanced(),
            s@ == self@.insert(*a),
            s.key_seq().len() == self.key_seq().len() + (if self@.contains(*a) {
                0int
            } else {
                1int
            }),
    {
        let s = OrdSet { tree: self.tree.insert_pair(a, Arc::new(Unit)) };
        proof {
            assert(s@ =~= self@.insert(*a));
        }
        s
    }

    /// Whether `a` is an element.
    pub fn contains(&self, a: &A) -> (r: bool)
        requires
            self.wf(),
        ensures
            r == self@.contains(*a),
    {
        self.tree.contains_key(a)
    }

    /// New set with `a` removed. When `a` is absent the result is the
    /// receiver itself, shared, not a rebuilt copy.
    pub fn delete(&self, a: &A) -> (s: Self)
        requires
            self.wf(),
            self.balanced(),
        ensures
            s.wf(),
            s.balanced(),
            s@ == self@.remove(*a),
            s.key_seq().len() == self.key_seq().len() - (if self@.contains(*a) {
                1int
            } else {
                0int
            }),
            !self@.contains(*a) ==> s == *self,
    {
        let s = OrdSet { tree: self.tree.delete(a) };
        proof {
            assert(s@ =~= self@.remove(*a));
        }
        s
    }

    /// All elements of both sets.
    pub fn union(&self, other: &Self) -> (s: Self)
        requires
            self.wf(),
            other.wf(),
            self.balanced(),
            other.balanced(),
            self.key_seq().len() + other.key_seq().len() <= usize::MAX,
        ensures
            s.wf(),
            s.balanced(),
            s@ == self@.union(other@),
            s.key_seq().len() <= self.key_seq().len() + other.key_seq().len(),
    {
        let s = OrdSet { tree: self.tree.union_with(&other.tree) };
        proof {
            assert(s@ =~= self@.union(other@));
        }
        s
    }

    /// Elements common to both sets.
    pub fn intersection(&self, other: &Self) -> (s: Self)
        requires
            self.wf(),
            other.wf(),
            self.balanced(),
            other.balanced(),
        ensures
            s.wf(),
            s.balanced(),
            s@ == self@.intersect(other@),
            s.key_seq().len() <= self.key_seq().len(),
    {
        let s = OrdSet { tree: self.tree.intersect_with(&other.tree) };
        proof {
            assert(s@ =~= self@.intersect(other@));
        }
        s
    }

    /// Elements of `self` that are not in `other`.
    pub fn difference(&self, other: &Self) -> (s: Self)
        requires
            self.wf(),
            other.wf(),
            self.balanced(),
            other.balanced(),
        ensures
            s.wf(),
            s.balanced(),
            s@ == self@.difference(other@),
            s.key_seq().len() <= self.key_seq().len(),
    {
        let s = OrdSet { tree: self.tree.difference_with(&other.tree) };
        proof {
            assert(s@ =~= self@.difference(other@));
        }
        s
    }

    /// Elements under `a` and elements over `a`; `a` itself is discarded.
    pub fn split(&self, a: &A) -> (r: (Self, Self))
        requires
            self.wf(),
            self.balanced(),
        ensures
            r.0.wf(),
            r.1.wf(),
            r.0.balanced(),
            r.1.balanced(),
            r.0@ == self@.intersect(Set::new(|x: A| lt(x, *a))),
            r.1@ == self@.intersect(Set::new(|x: A| lt(*a, x))),
            below(r.0@, *a),
            above(r.1@, *a),
            r.0.key_seq().len() + r.1.key_seq().len() + (if self@.contains(*a) {
                1int
            } else {
                0int
            }) == self.key_seq().len(),
    {
        let (l, r) = self.tree.split(a);
        let res = (OrdSet { tree: l }, OrdSet { tree: r });
        proof {
            assert(res.0@ =~= self@.intersect(Set::new(|x: A| lt(x, *a))));
            assert(res.1@ =~= self@.intersect(Set::new(|x: A| lt(*a, x))));
        }
        res
    }

    /// As `split`, and additionally reports whether `a` was an element.
    pub fn split_member(&self, a: &A) -> (r: (Self, bool, Self))
        requires
            self.wf(),
            self.balanced(),
        ensures
            r.0.wf(),
            r.2.wf(),
            r.0.balanced(),
            r.2.balanced(),
            r.1 == self@.contains(*a),
            r.0@ == self@.intersect(Set::new(|x: A| lt(x, *a))),
            r.2@ == self@.intersect(Set::new(|x: A| lt(*a, x))),
            below(r.0@, *a),
            above(r.2@, *a),
            r.0.key_seq().len() + r.2.key_seq().len() + (if self@.contains(*a) {
                1int
            } else {
                0int
            }) == self.key_seq().len(),
    {
        let (l, m, r) = self.tree.split_pair(a);
        let found = match m {
            Some(_) => true,
            None => false,
        };
        let res = (OrdSet { tree: l }, found, OrdSet { tree: r });
        proof {
            assert(res.0@ =~= self@.intersect(Set::new(|x: A| lt(x, *a))));
            assert(res.2@ =~= self@.intersect(Set::new(|x: A| lt(*a, x))));
        }
        res
    }

    /// Whether every element of `self` is an element of `other`.
    pub fn is_subset(&self, other: &Self) -> (r: bool)
        requires
            self.wf(),
            other.wf(),
            self.balanced(),
            other.balanced(),
        ensures
            r == self@.subset_of(other@),
    {
        let r = self.tree.is_submap_of(&other.tree);
        proof {
            if self.tree.as_map().submap_of(other.tree.as_map()) {
                assert(self@.subset_of(other@));
            }
            if self@.subset_of(other@) {
                assert forall|x: A| #[trigger] self.tree.as_map().dom().contains(x)
                    implies other.tree.as_map().dom().contains(x)
                    && self.tree.as_map()[x] == other.tree.as_map()[x] by {
                    assert(other@.contains(x));
                }
                assert(self.tree.as_map().submap_of(other.tree.as_map()));
            }
        }
        r
    }

    /// Whether `self` is a subset of `other` and misses at least one of
    /// its elements.
    pub fn is_proper_subset(&self, other: &Self) -> (r: bool)
        requires
            self.wf(),
            other.wf(),
            self.balanced(),
            other.balanced(),
        ensures
            r == (self@.subset_of(other@) && self@ != other@),
    {
        let sub = self.is_subset(other);
        let r = sub && self.size() != other.size();
        proof {
            self.tree.lemma_model();
            other.tree.lemma_model();
            if sub && self@.len() == other@.len() {
                assert forall|x: A| #[trigger] other@.contains(x) implies self@.contains(x) by {
                    if !self@.contains(x) {
                        assert(self@.subset_of(other@.remove(x)));
                        vstd::set_lib::lemma_len_subset(self@, other@.remove(x));
                    }
                }
                assert(self@ =~= other@);
            }
        }
        r
    }

    /// The first `n` elements in ascending order, or the whole set when it
    /// has no more than `n`.
    pub fn take(&self, n: usize) -> (s: Self)
        requires
            self.wf(),
            self.balanced(),
        ensures
            s.wf(),
            s.balanced(),
            s.key_seq() == self.key_seq().take(if n <= self.key_seq().len() {
                n as int
            } else {
                self.key_seq().len() as int
            }),
            s@.subset_of(self@),
    {
        let s = OrdSet { tree: self.tree.take_n(n) };
        proof {
            assert(s.key_seq() =~= self.key_seq().take(if n <= self.key_seq().len() {
                n as int
            } else {
                self.key_seq().len() as int
            }));
        }
        s
    }

    /// Everything after the first `n` elements in ascending order.
    pub fn drop(&self, n: usize) -> (s: Self)
        requires
            self.wf(),
            self.balanced(),
        ensures
            s.wf(),
            s.balanced(),
            s.key_seq() == self.key_seq().skip(if n <= self.key_seq().len() {
                n as int
            } else {
                self.key_seq().len() as int
            }),
            s@.subset_of(self@),
    {
        let s = OrdSet { tree: self.tree.drop_n(n) };
        proof {
            assert(s.key_seq() =~= self.key_seq().skip(if n <= self.key_seq().len() {
                n as int
            } else {
                self.key_seq().len() as int
            }));
        }
        s
    }

    /// The least element, shared, or nothing when the set is empty.
    pub fn lookup_min(&self) -> (r: Option<Arc<A>>)
        requires
            self.wf(),
        ensures
            (match r {
                Some(a) => self.key_seq().len() > 0 && *a == self.key_seq().first(),
                None => self.key_seq().len() == 0,
            }),
    {
        match self.tree.lookup_min_pair() {
            None => None,
            Some((k, _)) => Some(k),
        }
    }

    /// The greatest element, shared, or nothing when the set is empty.
    pub fn lookup_max(&self) -> (r: Option<Arc<A>>)
        requires
            self.wf(),
        ensures
            (match r {
                Some(a) => self.key_seq().len() > 0 && *a == self.key_seq().last(),
                None => self.key_seq().len() == 0,
            }),
    {
        match self.tree.lookup_max_pair() {
            None => None,
            Some((k, _)) => Some(k),
        }
    }

    /// Removes and returns the least element, with the rest of the set.
    pub fn pop_min(&self) -> (r: (Option<Arc<A>>, Self))
        requires
            self.wf(),
            self.balanced(),
        ensures
            r.1.wf(),
            r.1.balanced(),
            (match r.0 {
                Some(a) => self.key_seq().len() > 0 && *a == self.key_seq().first() && r.1@
                    == self@.remove(*a) && r.1.key_seq() == self.key_seq().drop_first(),
                None => self.key_seq().len() == 0 && r.1 == *self,
            }),
    {
        let sz = self.tree.size();
        if sz == 0 {
            (None, self.clone())
        } else {
            let (k, _, rest) = self.tree.pop_min_pair();
            let s = OrdSet { tree: rest };
            proof {
                assert(s@ =~= self@.remove(*k));
                assert(s.key_seq() =~= self.key_seq().drop_first());
            }
            (Some(k), s)
        }
    }

    /// Removes and returns the greatest element, with the rest of the set.
    pub fn pop_max(&self) -> (r: (Option<Arc<A>>, Self))
        requires
            self.wf(),
            self.balanced(),
        ensures
            r.1.wf(),
            r.1.balanced(),
            (match r.0 {
                Some(a) => self.key_seq().len() > 0 && *a == self.key_seq().last() && r.1@
                    == self@.remove(*a) && r.1.key_seq() == self.key_seq().drop_last(),
                None => self.key_seq().len() == 0 && r.1 == *self,
            }),
    {
        let sz = self.tree.size();
        if sz == 0 {
            (None, self.clone())
        } else {
            let (k, _, rest) = self.tree.pop_max_pair();
            let s = OrdSet { tree: rest };
            proof {
                assert(s@ =~= self@.remove(*k));
                assert(s.key_seq() =~= self.key_seq().drop_last());
            }
            (Some(k), s)
        }
    }

    /// The set without its least element.
    pub fn delete_min(&self) -> (s: Self)
        requires
            self.wf(),
            self.balanced(),
        ensures
            s.wf(),
            s.balanced(),
            self.key_seq().len() == 0 ==> s == *self,
            self.key_seq().len() > 0 ==> s.key_seq() == self.key_seq().drop_first(),
    {
        let (_, s) = self.pop_min();
        s
    }

    /// The set without its greatest element.
    pub fn delete_max(&self) -> (s: Self)
        requires
            self.wf(),
            self.balanced(),
        ensures
            s.wf(),
            s.balanced(),
            self.key_seq().len() == 0 ==> s == *self,
            self.key_seq().len() > 0 ==> s.key_seq() == self.key_seq().drop_last(),
    {
        let (_, s) = self.pop_max();
        s
    }

    /// Re-derives every structural invariant, as a consistency oracle.
    pub fn valid(&self) -> (r: bool)
        ensures
            r == (self.wf() && self.balanced()),
    {
        self.tree.valid()
    }

    /// Whether the two sets have exactly the same elements, whatever the
    /// shapes of their trees.
    pub fn equals(&self, other: &Self) -> (r: bool)
        requires
            self.wf(),
            other.wf(),
            self.balanced(),
            other.balanced(),
        ensures
            r == (self@ == other@),
    {
        let r = self.is_subset(other) && other.is_subset(self);
        proof {
            if r {
                assert(self@ =~= other@);
            }
        }
        r
    }

    /// Starts an in-order walk over a snapshot of the set.
    pub fn iter(&self) -> (it: Iter<A>)
        requires
            self.wf(),
        ensures
            it.remaining() == self.key_seq(),
    {
        let it = Iter { it: self.tree.iter() };
        proof {
            assert(it.remaining() =~= self.key_seq());
        }
        it
    }

    /// Builds a set by inserting every element of the sequence; order and
    /// duplicates in the input are irrelevant.
    pub fn from_vec(v: Vec<A>) -> (s: Self)
        requires
            v@.len() < usize::MAX,
        ensures
            s.wf(),
            s.balanced(),
            s@ == v@.to_set(),
    {
        let mut s = OrdSet::empty();
        let mut w = v;
        proof {
            assert(s@.union(w@.to_set()) =~= v@.to_set());
        }
        while w.len() > 0
            invariant
                s.wf(),
                s.balanced(),
                s@.union(w@.to_set()) == v@.to_set(),
                s.key_seq().len() + w@.len() <= v@.len(),
                v@.len() < usize::MAX,
            decreases w@.len(),
        {
            let ghost w0 = w@;
            let a = match w.pop() {
                Some(a) => a,
                None => unreached(),
            };
            proof {
                assert(w0.drop_last().to_set().insert(w0.last()) =~= w0.to_set()) by {
                    assert forall|x: A| #[trigger] w0.to_set().contains(x)
                        implies w0.drop_last().to_set().insert(w0.last()).contains(x) by {
                        let i = choose|i: int| 0 <= i < w0.len() && w0[i] == x;
                        if i < w0.len() - 1 {
                            assert(w0.drop_last()[i] == x);
                            assert(w0.drop_last().contains(x));
                        }
                    }
                    assert forall|x: A|
                        #[trigger] w0.drop_last().to_set().insert(w0.last()).contains(x)
                        implies w0.to_set().contains(x) by {
                        if w0.drop_last().to_set().contains(x) {
                            let i = choose|i: int|
                                0 <= i < w0.drop_last().len() && w0.drop_last()[i] == x;
                            assert(w0[i] == x);
                        } else {
                            assert(w0[w0.len() - 1] == x);
                        }
                    }
                }
            }
            s = s.insert(a);
            proof {
                assert(s@.union(w@.to_set()) =~= v@.to_set());
            }
        }
        proof {
            assert(w@.to_set() =~= Set::<A>::empty()) by {
                assert forall|x: A| !(#[trigger] w@.to_set().contains(x)) by {
                    if w@.contains(x) {
                        let i = choose|i: int| 0 <= i < w@.len() && w@[i] == x;
                    }
                }
            }
            assert(s@ =~= v@.to_set());
        }
        s
    }

    /// The elements in ascending order, as shared handles.
    pub fn to_vec(&self) -> (out: Vec<Arc<A>>)
        requires
            self.wf(),
        ensures
            out@.len() == self.key_seq().len(),
            forall|i: int| 0 <= i < out@.len() ==> *out@[i] == self.key_seq()[i],
    {
        let mut it = self.iter();
        let mut out: Vec<Arc<A>> = Vec::new();
        proof {
            assert(it.remaining() =~= self.key_seq().skip(out@.len() as int));
        }
        loop
            invariant
                out@.len() <= self.key_seq().len(),
                it.remaining() == self.key_seq().skip(out@.len() as int),
                forall|i: int| 0 <= i < out@.len() ==> *out@[i] == self.key_seq()[i],
            ensures
                out@.len() == self.key_seq().len(),
                forall|i: int| 0 <= i < out@.len() ==> *out@[i] == self.key_seq()[i],
            decreases self.key_seq().len() - out@.len(),
        {
            match it.next() {
                None => {
                    proof {
                        assert(out@.len() == self.key_seq().len());
                    }
                    break;
                },
                Some(a) => {
                    proof {
                        assert(self.key_seq().skip(out@.len() as int).first()
                            == self.key_seq()[out@.len() as int]);
                    }
                    out.push(a);
                    proof {
                        assert(it.remaining() =~= self.key_seq().skip(out@.len() as int));
                    }
                },
            }
        }
        out
    }
}

impl<A: TotalOrder> Clone for OrdSet<A> {
    /// An O(1) copy: the whole tree is shared between the two handles.
    fn clone(&self) -> (s: Self)
        ensures
            s == *self,
    {
        OrdSet { tree: self.tree.dup() }
    }
}

/// A lazy, single-pass, ascending iterator over one set snapshot.
pub struct Iter<A> {
    it: TreeIter<A, Unit>,
}

impl<A: TotalOrder> Iter<A> {
    /// The elements not yet produced, in ascending order.
    pub closed spec fn remaining(&self) -> Seq<A> {
        self.it.remaining().map_values(|p: (A, Unit)| p.0)
    }

    /// The next element of the walk, or nothing once it is finished.
    pub fn next(&mut self) -> (r: Option<Arc<A>>)
        ensures
            (match r {
                Some(a) => old(self).remaining().len() > 0 && *a == old(
                    self,
                ).remaining().first() && final(self).remaining() == old(
                    self,
                ).remaining().drop_first(),
                None => old(self).remaining().len() == 0 && final(self).remaining() == old(
                    self,
                ).remaining(),
            }),
    {
        match self.it.next() {
            None => None,
            Some((k, _)) => {
                proof {
                    assert(self.remaining() =~= old(self).remaining().drop_first());
                }
                Some(k)
            },
        }
    }
}

/// An ascending iterator handing out owned copies of the elements.
pub struct Cloned<A> {
    it: Iter<A>,
}

impl<A: TotalOrder + Clone> OrdSet<A> {
    /// Starts an ascending walk that clones each element out.
    pub fn clone_iter(&self) -> (it: Cloned<A>)
        requires
            self.wf(),
        ensures
            it.remaining() == self.key_seq(),
    {
        Cloned { it: self.iter() }
    }
}

impl<A: TotalOrder + Clone> Cloned<A> {
    /// The elements not yet produced, in ascending order.
    pub closed spec fn remaining(&self) -> Seq<A> {
        self.it.remaining()
    }

    /// The next element, as an owned clone.
    pub fn next(&mut self) -> (r: Option<A>)
        ensures
            (match r {
                Some(a) => old(self).remaining().len() > 0 && cloned(
                    old(self).remaining().first(),
                    a,
                ) && final(self).remaining() == old(self).remaining().drop_first(),
                None => old(self).remaining().len() == 0 && final(self).remaining() == old(
                    self,
                ).remaining(),
            }),
    {
        match self.it.next() {
            None => None,
            Some(a) => Some((&*a).clone()),
        }
    }
}

/// Every set in the sequence satisfies the structural invariant and the
/// balance bound.
pub open spec fn all_wf<A: TotalOrder>(s: Seq<OrdSet<A>>) -> bool {
    forall|i: int| 0 <= i < s.len() ==> (#[trigger] s[i]).wf() && s[i].balanced()
}

/// The union of all the sets in the sequence.
pub open spec fn union_of<A: TotalOrder>(s: Seq<OrdSet<A>>) -> Set<A>
    decreases s.len(),
{
    if s.len() == 0 {
        Set::empty()
    } else {
        union_of(s.drop_last()).union(s.last()@)
    }
}

/// The summed element counts of the sets in the sequence.
pub open spec fn total_len<A: TotalOrder>(s: Seq<OrdSet<A>>) -> int
    decreases s.len(),
{
    if s.len() == 0 {
        0
    } else {
        total_len(s.drop_last()) + s.last().key_seq().len()
    }
}

proof fn lemma_total_len_nonneg<A: TotalOrder>(s: Seq<OrdSet<A>>)
    ensures
        total_len(s) >= 0,
    decreases s.len(),
{
    if s.len() > 0 {
        lemma_total_len_nonneg(s.drop_last());
    }
}

proof fn lemma_total_len_step<A: TotalOrder>(s: Seq<OrdSet<A>>, j: int)
    requires
        0 <= j < s.len(),
    ensures
        total_len(s.take(j + 1)) == total_len(s.take(j)) + s[j].key_seq().len(),
        union_of(s.take(j + 1)) == union_of(s.take(j)).union(s[j]@),
{
    assert(s.take(j + 1).drop_last() =~= s.take(j));
    assert(s.take(j + 1).last() == s[j]);
}

proof fn lemma_total_len_bounds<A: TotalOrder>(s: Seq<OrdSet<A>>, j: int)
    requires
        0 <= j <= s.len(),
    ensures
        0 <= total_len(s.take(j)),
        total_len(s.take(j)) <= total_len(s),
    decreases s.len() - j,
{
    lemma_total_len_nonneg(s.take(j));
    if j == s.len() {
        assert(s.take(j) =~= s);
    } else {
        lemma_total_len_step(s, j);
        lemma_total_len_bounds(s, j + 1);
    }
}

impl<A: TotalOrder> OrdSet<A> {
    /// The union of a whole collection of sets, folded over `union`.
    pub fn unions(sets: &Vec<OrdSet<A>>) -> (s: Self)
        requires
            all_wf(sets@),
            total_len(sets@) <= usize::MAX,
        ensures
            s.wf(),
            s.balanced(),
            s@ == union_of(sets@),
    {
        let mut acc = OrdSet::empty();
        let mut i: usize = 0;
        proof {
            assert(sets@.take(0int) =~= Seq::<OrdSet<A>>::empty());
        }
        while i < sets.len()
            invariant
                all_wf(sets@),
                total_len(sets@) <= usize::MAX,
                i <= sets@.len(),
                acc.wf(),
                acc.balanced(),
                acc@ == union_of(sets@.take(i as int)),
                acc.key_seq().len() <= total_len(sets@.take(i as int)),
            decreases sets@.len() - i,
        {
            proof {
                lemma_total_len_step(sets@, i as int);
                lemma_total_len_bounds(sets@, i as int + 1);
            }
            acc = acc.union(&sets[i]);
            proof {
                assert(acc@ =~= union_of(sets@.take(i as int + 1)));
            }
            i = i + 1;
        }
        proof {
            assert(sets@.take(sets@.len() as int) =~= sets@);
        }
        acc
    }
}

/// Law: the union and the intersection of two sets together account for
/// every element of both, so their sizes add up to the two sets' sizes.
pub proof fn lemma_union_intersection_sizes<A: TotalOrder>(a: OrdSet<A>, b: OrdSet<A>)
    requires
        a.wf(),
        b.wf(),
    ensures
        a@.union(b@).len() + a@.intersect(b@).len() == a@.len() + b@.len(),
        a@.union(b@).finite(),
        a@.intersect(b@).finite(),
{
    a.tree.lemma_model();
    b.tree.lemma_model();
    assert(a@.union(b@) =~= a@ + b@.difference(a@));
    assert(a@.disjoint(b@.difference(a@)));
    vstd::set_lib::lemma_set_disjoint_lens(a@, b@.difference(a@));
    assert(b@ =~= a@.intersect(b@) + b@.difference(a@));
    assert(a@.intersect(b@).disjoint(b@.difference(a@)));
    vstd::set_lib::lemma_set_disjoint_lens(a@.intersect(b@), b@.difference(a@));
}

/// Law: taking a difference after a union with the subtrahend changes
/// nothing, and union, intersection and difference of a set with itself
/// behave as on mathematical sets.
pub proof fn lemma_set_algebra_identities<A: TotalOrder>(a: OrdSet<A>, b: OrdSet<A>)
    ensures
        a@.union(b@).difference(b@) == a@.difference(b@),
        a@.union(a@) == a@,
        a@.intersect(a@) == a@,
        a@.difference(a@) == Set::<A>::empty(),
{
    assert(a@.union(b@).difference(b@) =~= a@.difference(b@));
    assert(a@.union(a@) =~= a@);
    assert(a@.intersect(a@) =~= a@);
    assert(a@.difference(a@) =~= Set::<A>::empty());
}

/// Law: the element sequence of a set is the canonical form of its
/// contents: strictly ascending, exactly the elements of the set, and as
/// long as the set's cardinality. Iteration, draining by `pop_min`, and a
/// round trip through `from_vec` therefore all agree on this sequence.
pub proof fn lemma_ascending_iteration<A: TotalOrder>(s: OrdSet<A>)
    requires
        s.wf(),
    ensures
        s@.finite(),
        s.key_seq().len() == s@.len(),
        forall|i: int, j: int| 0 <= i < j < s.key_seq().len()
            ==> lt(#[trigger] s.key_seq()[i], #[trigger] s.key_seq()[j]),
        forall|i: int| 0 <= i < s.key_seq().len() ==> s@.contains(#[trigger] s.key_seq()[i]),
        forall|x: A| #[trigger] s@.contains(x) ==> s.key_seq().contains(x),
{
    s.tree.lemma_model();
    assert forall|i: int| 0 <= i < s.key_seq().len()
        implies s@.contains(#[trigger] s.key_seq()[i]) by {
        assert(s.key_seq()[i] == s.tree.entries()[i].0);
    }
    assert forall|x: A| #[trigger] s@.contains(x) implies s.key_seq().contains(x) by {
        let i = choose|i: int|
            0 <= i < s.tree.entries().len() && s.tree.entries()[i].0 == x;
        assert(s.key_seq()[i] == x);
    }
}

/// Law: slicing by rank partitions the ascending element sequence with no
/// overlap and no gap: the first `n` elements followed by the rest
/// reassemble it exactly.
pub proof fn lemma_take_drop_partition<A: TotalOrder>(s: OrdSet<A>, n: usize)
    requires
        s.wf(),
    ensures
        s.key_seq().take(if n <= s.key_seq().len() {
            n as int
        } else {
            s.key_seq().len() as int
        }) + s.key_seq().skip(if n <= s.key_seq().len() {
            n as int
        } else {
            s.key_seq().len() as int
        }) == s.key_seq(),
{
    assert(s.key_seq().take(if n <= s.key_seq().len() {
        n as int
    } else {
        s.key_seq().len() as int
    }) + s.key_seq().skip(if n <= s.key_seq().len() {
        n as int
    } else {
        s.key_seq().len() as int
    }) =~= s.key_seq());
}

/// Law: removing the least element and putting it back in front restores
/// the ascending sequence, so draining with `pop_min` emits exactly what
/// the iterator emits.
pub proof fn lemma_ordered_drain_step<A: TotalOrder>(s: OrdSet<A>)
    requires
        s.wf(),
        s.key_seq().len() > 0,
    ensures
        seq![s.key_seq().first()] + s.key_seq().drop_first() == s.key_seq(),
{
    assert(seq![s.key_seq().first()] + s.key_seq().drop_first() =~= s.key_seq());
}

/// Strict lexicographic order on two ascending element sequences.
pub open spec fn lex_lt<A: TotalOrder>(a: Seq<A>, b: Seq<A>) -> bool
    decreases a.len(),
{
    if b.len() == 0 {
        false
    } else if a.len() == 0 {
        true
    } else if lt(a.first(), b.first()) {
        true
    } else if a.first() == b.first() {
        lex_lt(a.drop_first(), b.drop_first())
    } else {
        false
    }
}

/// Two sequences that agree up to `i` compare by what stands at `i`: a
/// smaller element there, or running out first, decides the order.
proof fn lemma_lex_common_prefix<A: TotalOrder>(a: Seq<A>, b: Seq<A>, i: int)
    requires
        0 <= i <= a.len(),
        i <= b.len(),
        forall|j: int| 0 <= j < i ==> a[j] == b[j],
        (i < a.len() && i < b.len() && lt(a[i], b[i])) || (i == a.len() && i < b.len()),
    ensures
        lex_lt(a, b),
    decreases i,
{
    if i == 0 {
    } else {
        assert(a.first() == b.first());
        assert forall|j: int| 0 <= j < i - 1 implies a.drop_first()[j] == b.drop_first()[j] by {
            assert(a[j + 1] == b[j + 1]);
        }
        lemma_lex_common_prefix(a.drop_first(), b.drop_first(), i - 1);
    }
}

impl<A: TotalOrder> OrdSet<A> {
    /// Three-way lexicographic comparison of the two ascending element
    /// sequences: the ordering surface of the set type.
    pub fn cmp_lex(&self, other: &Self) -> (c: Cmp)
        requires
            self.wf(),
            other.wf(),
        ensures
            (match c {
                Cmp::Lt => lex_lt(self.key_seq(), other.key_seq()),
                Cmp::Eq => self.key_seq() == other.key_seq(),
                Cmp::Gt => lex_lt(other.key_seq(), self.key_seq()),
            }),
    {
        let mut it1 = self.iter();
        let mut it2 = other.iter();
        let ghost a = self.key_seq();
        let ghost b = other.key_seq();
        let ghost mut i: int = 0;
        proof {
            assert(it1.remaining() =~= a.skip(0));
            assert(it2.remaining() =~= b.skip(0));
        }
        loop
            invariant
                a == self.key_seq(),
                b == other.key_seq(),
                0 <= i <= a.len(),
                i <= b.len(),
                it1.remaining() == a.skip(i),
                it2.remaining() == b.skip(i),
                forall|j: int| 0 <= j < i ==> a[j] == b[j],
            decreases a.len() - i,
        {
            let x1 = it1.next();
            let x2 = it2.next();
            match (x1, x2) {
                (None, None) => {
                    proof {
                        assert(a =~= b);
                    }
                    return Cmp::Eq;
                },
                (None, Some(_)) => {
                    proof {
                        lemma_lex_common_prefix(a, b, i);
                    }
                    return Cmp::Lt;
                },
                (Some(_), None) => {
                    proof {
                        lemma_lex_common_prefix(b, a, i);
                    }
                    return Cmp::Gt;
                },
                (Some(x), Some(y)) => {
                    proof {
                        assert(*x == a[i] && *y == b[i]);
                    }
                    match (&*x).compare(&*y) {
                        Cmp::Lt => {
                            proof {
                                lemma_lex_common_prefix(a, b, i);
                            }
                            return Cmp::Lt;
                        },
                        Cmp::Gt => {
                            proof {
                                lemma_lex_common_prefix(b, a, i);
                            }
                            return Cmp::Gt;
                        },
                        Cmp::Eq => {
                            proof {
                                assert(a.skip(i).drop_first() =~= a.skip(i + 1));
                                assert(b.skip(i).drop_first() =~= b.skip(i + 1));
                                i = i + 1;
                            }
                        },
                    }
                },
            }
        }
    }
}


} // verus!
