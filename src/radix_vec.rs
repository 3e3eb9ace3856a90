//! The persistent radix vector: a balanced tree of shared nodes whose
//! leaves hold the elements in index order. Updates copy the path from the
//! root to the element they touch and share everything else.

mod item;
mod leaf;
mod node;

pub use self::item::{upow, Item};
pub use self::leaf::Leaf;
pub use self::node::Node;

use self::item::{lemma_upow_mono, lemma_wf_len};
use std::sync::Arc;
use vstd::arithmetic::div_mod::lemma_fundamental_div_mod;
use vstd::prelude::*;

verus! {

/// A persistent vector with branching factor `N`.
///
/// Every update returns a new vector and leaves this one as it was; the two
/// share every subtree that the update did not touch.
pub struct RadixVec<T, const N: usize> {
    root: Option<Item<T, N>>,
    len: usize,
    height: Ghost<nat>,
}

impl<T, const N: usize> View for RadixVec<T, N> {
    type V = Seq<T>;

    closed spec fn view(&self) -> Seq<T> {
        match self.root {
            Some(r) => r.elems(self.height@),
            None => Seq::empty(),
        }
    }
}

impl<T, const N: usize> Clone for RadixVec<T, N> {
    /// Returns another handle to the same tree.
    fn clone(&self) -> (r: Self)
        ensures
            r == *self,
    {
        let root = match &self.root {
            Some(root) => Some(root.share()),
            None => None,
        };
        RadixVec { root, len: self.len, height: self.height }
    }
}

impl<T, const N: usize> Default for RadixVec<T, N> {
    /// Creates an empty vector.
    fn default() -> (r: Self)
        ensures
            r.wf(),
            r@ == Seq::<T>::empty(),
    {
        Self::new()
    }
}

impl<T, const N: usize> RadixVec<T, N> {
    /// The vector is well formed: an empty vector has no root; otherwise the
    /// root is a well-formed tree holding `len` elements, of the least
    /// height that can hold them.
    pub closed spec fn wf(&self) -> bool {
        match self.root {
            None => self.len == 0 && self.height@ == 0,
            Some(r) => {
                &&& N >= 2
                &&& r.wf(self.height@)
                &&& r.elems(self.height@).len() == self.len
                &&& self.height@ > 0 ==> self.len > upow(N as nat, self.height@)
            },
        }
    }

    /// The number of levels above the leaves.
    pub closed spec fn height(&self) -> nat {
        self.height@
    }

    /// The height is the least that can hold the elements.
    pub proof fn lemma_height(&self)
        requires
            self.wf(),
        ensures
            self@.len() <= upow(N as nat, self.height() + 1),
            self.height() > 0 ==> self@.len() > upow(N as nat, self.height()),
    {
        if let Some(r) = self.root {
            lemma_wf_len(r, self.height@);
        } else {
            assert(upow(N as nat, 1) == N * upow(N as nat, 0));
        }
    }

    /// Creates an empty vector.
    pub fn new() -> (r: Self)
        ensures
            r.wf(),
            r@ == Seq::<T>::empty(),
            r.height() == 0,
    {
        RadixVec { root: None, len: 0, height: Ghost(0) }
    }

    /// Returns the number of elements.
    pub fn len(&self) -> (r: usize)
        requires
            self.wf(),
        ensures
            r == self@.len(),
    {
        self.len
    }

    /// Returns `true` if the vector holds no element.
    pub fn is_empty(&self) -> (r: bool)
        requires
            self.wf(),
        ensures
            r == (self@.len() == 0),
    {
        self.len == 0
    }

    /// The number of elements that one child slot of the root holds.
    fn root_slot(&self) -> (r: usize)
        requires
            self.wf(),
            self.len > 0,
        ensures
            r == upow(N as nat, self.height@),
    {
        let ghost h = self.height@;
        proof {
            self.lemma_height();
            lemma_fundamental_div_mod((self.len - 1) as int, N as int);
        }
        let ghost q = (self.len - 1) as int / (N as int);
        let ghost m = (self.len - 1) as int % (N as int);
        let mut slot: usize = 1;
        let ghost mut k: nat = 0;
        while slot <= (self.len - 1) / N
            invariant
                N >= 2,
                self.len >= 1,
                self.len <= upow(N as nat, h + 1),
                h > 0 ==> self.len > upow(N as nat, h),
                self.len - 1 == N * q + m,
                q == (self.len - 1) as int / (N as int),
                0 <= m < N,
                slot == upow(N as nat, k),
                k <= h,
            decreases h - k,
        {
            proof {
                assert(slot * N <= self.len - 1) by (nonlinear_arith)
                    requires slot <= q, self.len - 1 == N * q + m, 0 <= m, N >= 2;
                if k + 1 > h {
                    assert(upow(N as nat, k + 1) == N * upow(N as nat, k));
                }
            }
            slot = slot * N;
            proof {
                k = k + 1;
            }
        }
        proof {
            assert(slot * N >= self.len) by (nonlinear_arith)
                requires slot > q, self.len - 1 == N * q + m, m < N, N >= 2;
            assert(upow(N as nat, k + 1) == N * upow(N as nat, k));
            if k < h {
                lemma_upow_mono(N as nat, k + 1, h);
            }
        }
        slot
    }

    /// Returns the element at `index`, or `None` where `index` is out of
    /// range.
    pub fn get(&self, index: usize) -> (r: Option<&T>)
        requires
            self.wf(),
        ensures
            match r {
                Some(x) => index < self@.len() && *x == self@[index as int],
                None => index >= self@.len(),
            },
    {
        match &self.root {
            Some(root) => {
                if index < self.len {
                    let slot = self.root_slot();
                    Some(root.get_at(Ghost(self.height@), slot, index))
                } else {
                    None
                }
            },
            None => None,
        }
    }

    /// Returns a new vector with `value` appended.
    pub fn push(&self, value: T) -> (r: Self)
        requires
            self.wf(),
            N >= 2,
            self@.len() < usize::MAX,
        ensures
            r.wf(),
            r@ == self@.push(value),
            r@.len() == self@.len() + 1,
            r.height() == if self@.len() == upow(N as nat, self.height() + 1) {
                self.height() + 1
            } else {
                self.height()
            },
    {
        let ghost h = self.height@;
        match &self.root {
            None => {
                let root = Item::leaf(Leaf::singleton(value));
                let r = RadixVec { root: Some(root), len: 1, height: Ghost(0) };
                proof {
                    assert(root.elems(0) == seq![value]);
                    assert(r@ =~= self@.push(value));
                    assert(upow(N as nat, 0) == 1);
                    assert(upow(N as nat, 1) == N * upow(N as nat, 0));
                    assert(upow(N as nat, 1) == N);
                    assert(self.height() == 0);
                    assert(self@.len() == 0);
                }
                r
            },
            Some(root) => {
                let slot = self.root_slot();
                proof {
                    self.lemma_height();
                    assert(upow(N as nat, h + 1) == N * upow(N as nat, h));
                    lemma_upow_mono(N as nat, 0, h);
                    lemma_fundamental_div_mod(self.len as int, N as int);
                    assert(self.len / N == slot <==> self.len == N * slot) by (nonlinear_arith)
                        requires
                            self.len <= N * slot,
                            self.len == N * (self.len / N) + self.len % N,
                            0 <= self.len % N < N,
                            N >= 2,
                    ;
                }
                if self.len / N == slot {
                    let fresh = Item::path(Ghost(h), slot, value);
                    let node = Node::singleton(root.share(), slot == 1).pushed(fresh);
                    let new_root = Item::Node(Arc::new(node));
                    let r = RadixVec { root: Some(new_root), len: self.len + 1, height: Ghost(h + 1) };
                    proof {
                        item::lemma_upow_levels(N as nat, h);
                        let cs = node@;
                        assert(cs =~= seq![*root, fresh]);
                        assert(cs.drop_last() =~= seq![*root]);
                        assert(seq![*root].drop_last() =~= Seq::<Item<T, N>>::empty());
                        assert(item::concat(seq![*root], h) == item::concat(Seq::<Item<T, N>>::empty(), h) + root.elems(h));
                        assert(item::concat(Seq::<Item<T, N>>::empty(), h) == Seq::<T>::empty());
                        assert(item::concat(cs, h) == item::concat(cs.drop_last(), h) + fresh.elems(h));
                        assert(r@ =~= self@.push(value));
                        assert(cs[0] == *root);
                        assert(cs[1] == fresh);
                        assert(new_root.wf(h + 1));
                    }
                    r
                } else {
                    let new_root = root.pushed(Ghost(h), slot, self.len, value);
                    let r = RadixVec { root: Some(new_root), len: self.len + 1, height: Ghost(h) };
                    proof {
                        assert(self@.len() != upow(N as nat, self.height() + 1));
                    }
                    r
                }
            },
        }
    }

    /// Returns a new vector with the element at `index` replaced by `value`,
    /// or `None` where `index` is out of range.
    pub fn set(&self, index: usize, value: T) -> (r: Option<Self>)
        requires
            self.wf(),
        ensures
            match r {
                Some(v) => {
                    &&& index < self@.len()
                    &&& v.wf()
                    &&& v@ == self@.update(index as int, value)
                    &&& v@.len() == self@.len()
                    &&& v.height() == self.height()
                },
                None => index >= self@.len(),
            },
    {
        match &self.root {
            Some(root) => {
                if index < self.len {
                    let slot = self.root_slot();
                    let new_root = root.set_at(Ghost(self.height@), slot, index, value);
                    Some(RadixVec { root: Some(new_root), len: self.len, height: Ghost(self.height@) })
                } else {
                    None
                }
            },
            None => None,
        }
    }

    /// Returns a new vector without the last element, together with that
    /// element, or `None` where the vector is empty. The height drops by one
    /// where the elements left fit in a lower tree.
    pub fn pop(&self) -> (r: Option<(Self, &T)>)
        requires
            self.wf(),
        ensures
            match r {
                Some((v, x)) => {
                    &&& self@.len() > 0
                    &&& v.wf()
                    &&& v@ == self@.drop_last()
                    &&& v@.len() == self@.len() - 1
                    &&& *x == self@.last()
                    &&& v.height() == if self.height() > 0 && self@.len() - 1 == upow(N as nat, self.height()) {
                        (self.height() - 1) as nat
                    } else {
                        self.height()
                    }
                },
                None => self@.len() == 0,
            },
    {
        let ghost h = self.height@;
        match &self.root {
            None => None,
            Some(root) => {
                let slot = self.root_slot();
                let (rest, x) = root.popped(Ghost(h), slot, self.len);
                match rest {
                    None => {
                        let v = RadixVec { root: None, len: 0, height: Ghost(0) };
                        proof {
                            assert(v@ =~= self@.drop_last());
                            self.lemma_height();
                            lemma_upow_mono(N as nat, 0, h);
                        }
                        Some((v, x))
                    },
                    Some(new_root) => {
                        let len = self.len - 1;
                        let collapsed = match &new_root {
                            Item::Node(n) => if n.len() == 1 {
                                Some(n.child(0).share())
                            } else {
                                None
                            },
                            Item::Leaf(_) => None,
                        };
                        proof {
                            self.lemma_height();
                            lemma_wf_len(new_root, h);
                        }
                        match collapsed {
                            Some(child) => {
                                let v = RadixVec { root: Some(child), len, height: Ghost((h - 1) as nat) };
                                proof {
                                    if let Item::Node(n) = new_root {
                                        let c = (h - 1) as nat;
                                        assert(n@.drop_last() =~= Seq::<Item<T, N>>::empty());
                                        assert(n@.last() == child);
                                        assert(item::concat(n@, c) == item::concat(n@.drop_last(), c) + child.elems(c));
                                        assert(item::concat(Seq::<Item<T, N>>::empty(), c) == Seq::<T>::empty());
                                        assert(v@ =~= self@.drop_last());
                                        assert(child.wf(c));
                                        lemma_wf_len(child, c);
                                        if c > 0 {
                                            item::lemma_upow_strict(N as nat, c, h);
                                        }
                                    }
                                }
                                Some((v, x))
                            },
                            None => {
                                let ghost kept = new_root;
                                let v = RadixVec { root: Some(new_root), len, height: Ghost(h) };
                                proof {
                                    if let Item::Node(n) = kept {
                                        let c = (h - 1) as nat;
                                        let k = n@.len();
                                        item::lemma_concat_len(n@, c);
                                        lemma_upow_mono(N as nat, 0, h);
                                        assert(n@.last() == n@[k - 1]);
                                        lemma_wf_len(n@.last(), c);
                                        assert((k - 1) * upow(N as nat, h) >= upow(N as nat, h)) by (nonlinear_arith)
                                            requires k >= 2;
                                    }
                                }
                                Some((v, x))
                            },
                        }
                    },
                }
            },
        }
    }

    /// Returns a cursor that reads the elements in index order.
    pub fn iter(&self) -> (r: Iter<'_, T, N>)
        requires
            self.wf(),
        ensures
            r.wf(),
            r.source() == self@,
            r.position() == 0,
    {
        Iter { vec: self, index: 0 }
    }
}

/// A cursor over the elements of a vector, in index order. It reads the
/// tree without changing it, so any number of cursors and derived versions
/// can exist beside it.
pub struct Iter<'a, T, const N: usize> {
    vec: &'a RadixVec<T, N>,
    index: usize,
}

impl<'a, T, const N: usize> Iter<'a, T, N> {
    /// The cursor reads a well-formed vector.
    pub closed spec fn wf(&self) -> bool {
        self.vec.wf()
    }

    /// The elements the cursor reads.
    pub closed spec fn source(&self) -> Seq<T> {
        self.vec@
    }

    /// The index of the next element to read.
    pub closed spec fn position(&self) -> nat {
        self.index as nat
    }

    /// Returns the next element and moves past it, or `None` at the end.
    pub fn next(&mut self) -> (r: Option<&'a T>)
        requires
            old(self).wf(),
        ensures
            final(self).wf(),
            final(self).source() == old(self).source(),
            match r {
                Some(x) => {
                    &&& old(self).position() < old(self).source().len()
                    &&& *x == old(self).source()[old(self).position() as int]
                    &&& final(self).position() == old(self).position() + 1
                },
                None => {
                    &&& old(self).position() >= old(self).source().len()
                    &&& final(self).position() == old(self).position()
                },
            },
    {
        let vec: &'a RadixVec<T, N> = self.vec;
        let r = vec.get(self.index);
        if r.is_some() {
            self.index = self.index + 1;
        }
        r
    }
}

/// The contents of a vector built from the empty one by pushing the
/// elements of `xs` in order.
pub open spec fn pushed_all<T>(xs: Seq<T>) -> Seq<T>
    decreases xs.len(),
{
    if xs.len() == 0 {
        Seq::empty()
    } else {
        pushed_all(xs.drop_last()).push(xs.last())
    }
}

/// A vector built by pushing `xs` in order holds `xs[i]` at every index
/// `i` below the length, and nothing past it.
pub proof fn lemma_pushes_index<T, const N: usize>(xs: Seq<T>, v: RadixVec<T, N>)
    requires
        v.wf(),
        v@ == pushed_all(xs),
    ensures
        v@.len() == xs.len(),
        forall|i: int| 0 <= i < xs.len() ==> v@[i] == xs[i],
{
    lemma_pushed_all(xs);
}

/// Pushing the elements of `xs` one by one yields `xs`.
pub proof fn lemma_pushed_all<T>(xs: Seq<T>)
    ensures
        pushed_all(xs) == xs,
    decreases xs.len(),
{
    if xs.len() > 0 {
        lemma_pushed_all(xs.drop_last());
        assert(xs.drop_last().push(xs.last()) =~= xs);
    }
}

/// Setting index `i` to `y` and reading index `i` back gives `y`; every
/// other index reads as before.
pub proof fn lemma_set_round_trip<T, const N: usize>(v: RadixVec<T, N>, w: RadixVec<T, N>, i: int, y: T)
    requires
        v.wf(),
        0 <= i < v@.len(),
        w@ == v@.update(i, y),
    ensures
        w@.len() == v@.len(),
        w@[i] == y,
        forall|j: int| 0 <= j < v@.len() && j != i ==> w@[j] == v@[j],
{
}

/// Popping the last element and pushing it back gives a vector equal to
/// the first, element by element.
pub proof fn lemma_pop_push<T, const N: usize>(v: RadixVec<T, N>, w: RadixVec<T, N>, x: T, u: RadixVec<T, N>)
    requires
        v.wf(),
        v@.len() > 0,
        w@ == v@.drop_last(),
        x == v@.last(),
        u@ == w@.push(x),
    ensures
        u@ == v@,
{
    assert(u@ =~= v@);
}

/// Pushing onto a vector leaves every element of the source where it was;
/// the new vector adds one element past them.
pub proof fn lemma_push_keeps_prefix<T, const N: usize>(v: RadixVec<T, N>, w: RadixVec<T, N>, x: T)
    requires
        v.wf(),
        w@ == v@.push(x),
    ensures
        w@.len() == v@.len() + 1,
        forall|i: int| 0 <= i < v@.len() ==> w@[i] == v@[i],
        w@[v@.len() as int] == x,
{
}

/// A vector of exactly `N` elements is a single leaf; one more element
/// takes one level more.
pub proof fn lemma_boundary_height<T, const N: usize>(v: RadixVec<T, N>, w: RadixVec<T, N>)
    requires
        v.wf(),
        w.wf(),
        v@.len() == N,
        w@.len() == N + 1,
        N >= 2,
    ensures
        v.height() == 0,
        w.height() == 1,
{
    v.lemma_height();
    w.lemma_height();
    assert(upow(N as nat, 0) == 1);
    assert(upow(N as nat, 1) == N) by {
        assert(upow(N as nat, 1) == N * upow(N as nat, 0));
    }
    assert(upow(N as nat, 2) == N * N) by {
        assert(upow(N as nat, 2) == N * upow(N as nat, 1));
    }
    if v.height() > 0 {
        lemma_upow_mono(N as nat, 1, v.height());
    }
    if w.height() == 0 {
        assert(w@.len() <= N);
    }
    if w.height() >= 2 {
        lemma_upow_mono(N as nat, 2, w.height());
        assert(N * N >= N + 2) by (nonlinear_arith)
            requires N >= 2;
    }
}

} // verus!
