use super::leaf::Leaf;
use super::node::Node;
use std::sync::Arc;
use vstd::arithmetic::div_mod::{
    lemma_div_multiples_vanish, lemma_fundamental_div_mod, lemma_fundamental_div_mod_converse,
};
use vstd::prelude::*;

verus! {

/// A shared handle to a subtree: either an internal node or a leaf.
pub enum Item<T, const N: usize> {
    Node(Arc<Node<T, N>>),
    Leaf(Arc<Leaf<T, N>>),
}

/// `n` to the power `e`.
pub open spec fn upow(n: nat, e: nat) -> nat
    decreases e,
{
    if e == 0 {
        1
    } else {
        n * upow(n, (e - 1) as nat)
    }
}

/// The elements under a sequence of sibling handles at height `h`, in order.
pub open spec fn concat<T, const N: usize>(cs: Seq<Item<T, N>>, h: nat) -> Seq<T>
    decreases h, 1nat, cs.len(),
{
    if cs.len() == 0 {
        Seq::empty()
    } else {
        concat(cs.drop_last(), h) + cs.last().elems(h)
    }
}


/// Every handle of `cs` but the last holds a full subtree at height `c`.
pub open spec fn full_but_last<T, const N: usize>(cs: Seq<Item<T, N>>, c: nat) -> bool {
    forall|i: int| 0 <= i < cs.len() - 1 ==> (#[trigger] cs[i]).elems(c).len() == upow(N as nat, c + 1)
}

/// Powers of a base of at least one are positive.
pub proof fn lemma_upow_pos(n: nat, e: nat)
    requires
        n >= 1,
    ensures
        upow(n, e) >= 1,
    decreases e,
{
    if e > 0 {
        lemma_upow_pos(n, (e - 1) as nat);
        assert(n * upow(n, (e - 1) as nat) >= 1) by (nonlinear_arith)
            requires n >= 1, upow(n, (e - 1) as nat) >= 1;
    }
}

/// Powers of a base of at least one grow with the exponent.
pub proof fn lemma_upow_mono(n: nat, a: nat, b: nat)
    requires
        n >= 1,
        a <= b,
    ensures
        1 <= upow(n, a) <= upow(n, b),
    decreases b,
{
    lemma_upow_pos(n, a);
    if b > a {
        lemma_upow_mono(n, a, (b - 1) as nat);
        assert(upow(n, (b - 1) as nat) <= n * upow(n, (b - 1) as nat)) by (nonlinear_arith)
            requires n >= 1, upow(n, (b - 1) as nat) >= 1;
    }
}

/// Powers of a base of at least two grow strictly with the exponent.
pub proof fn lemma_upow_strict(n: nat, a: nat, b: nat)
    requires
        n >= 2,
        a < b,
    ensures
        upow(n, a) < upow(n, b),
    decreases b,
{
    lemma_upow_mono(n, a, (b - 1) as nat);
    assert(upow(n, (b - 1) as nat) < n * upow(n, (b - 1) as nat)) by (nonlinear_arith)
        requires n >= 2, upow(n, (b - 1) as nat) >= 1;
}

/// The elements under siblings whose every member but the last is full.
pub proof fn lemma_concat_len<T, const N: usize>(cs: Seq<Item<T, N>>, c: nat)
    requires
        cs.len() >= 1,
        full_but_last(cs, c),
    ensures
        concat(cs, c).len() == (cs.len() - 1) * upow(N as nat, c + 1) + cs.last().elems(c).len(),
    decreases cs.len(),
{
    let slot = upow(N as nat, c + 1);
    let d = cs.drop_last();
    assert(concat(cs, c) == concat(d, c) + cs.last().elems(c));
    if d.len() == 0 {
        assert(concat(d, c) == Seq::<T>::empty());
    } else {
        assert(full_but_last(d, c)) by {
            assert forall|i: int| 0 <= i < d.len() - 1 implies (#[trigger] d[i]).elems(c).len() == slot by {
                assert(d[i] == cs[i]);
            }
        }
        lemma_concat_len(d, c);
        assert(d.last() == cs[cs.len() - 2]);
        assert((d.len() - 1) * slot + slot == d.len() * slot) by (nonlinear_arith);
    }
}

/// Concatenation distributes over appending one sibling.
pub proof fn lemma_concat_push<T, const N: usize>(cs: Seq<Item<T, N>>, x: Item<T, N>, c: nat)
    ensures
        concat(cs.push(x), c) == concat(cs, c) + x.elems(c),
{
    assert(cs.push(x).drop_last() =~= cs);
}

/// Element `i` of the concatenation is found in sibling `i / slot` at `i % slot`.
pub proof fn lemma_concat_index<T, const N: usize>(cs: Seq<Item<T, N>>, c: nat, i: int)
    requires
        cs.len() >= 1,
        full_but_last(cs, c),
        cs.last().elems(c).len() <= upow(N as nat, c + 1),
        0 <= i < concat(cs, c).len(),
    ensures
        0 <= i / (upow(N as nat, c + 1) as int) < cs.len(),
        concat(cs, c)[i] == cs[i / (upow(N as nat, c + 1) as int)].elems(c)[i % (upow(N as nat, c + 1) as int)],
        i % (upow(N as nat, c + 1) as int) < cs[i / (upow(N as nat, c + 1) as int)].elems(c).len(),
    decreases cs.len(),
{
    let slot = upow(N as nat, c + 1) as int;
    let d = cs.drop_last();
    lemma_concat_len(cs, c);
    let k = (cs.len() - 1) as int;
    assert(concat(cs, c) == concat(d, c) + cs.last().elems(c));
    if d.len() == 0 {
        assert(k * slot == 0);
    } else {
        assert(full_but_last(d, c)) by {
            assert forall|j: int| 0 <= j < d.len() - 1 implies (#[trigger] d[j]).elems(c).len() == slot by {
                assert(d[j] == cs[j]);
            }
        }
        lemma_concat_len(d, c);
        assert(d.last() == cs[cs.len() - 2]);
        assert((d.len() - 1) * slot + slot == d.len() * slot) by (nonlinear_arith);
    }
    if i < k * slot {
        lemma_concat_index(d, c, i);
        assert(d[i / slot] == cs[i / slot]);
    } else {
        let r = i - k * slot;
        assert(slot > 0) by {
            if slot == 0 {
                assert(k * slot == 0) by (nonlinear_arith) requires slot == 0;
            }
        }
        lemma_fundamental_div_mod_converse(i, slot, k, r);
    }
}

/// A well-formed subtree at height `h` holds between one and `N^(h+1)`
/// elements.
pub proof fn lemma_wf_len<T, const N: usize>(item: Item<T, N>, h: nat)
    requires
        item.wf(h),
    ensures
        1 <= item.elems(h).len() <= upow(N as nat, h + 1),
    decreases h,
{
    match item {
        Item::Leaf(l) => {
            assert(item.elems(h) == l@);
            assert(upow(N as nat, 0) == 1);
            assert(upow(N as nat, h + 1) == N * upow(N as nat, 0));
        },
        Item::Node(n) => {
            let cs = n@;
            let c = (h - 1) as nat;
            let slot = upow(N as nat, h);
            assert(cs.last() == cs[cs.len() - 1]);
            lemma_wf_len(cs.last(), c);
            lemma_concat_len(cs, c);
            let m = cs.last().elems(c).len();
            assert((cs.len() - 1) * slot + m <= N * slot) by (nonlinear_arith)
                requires cs.len() <= N, m <= slot, cs.len() >= 1;
        },
    }
}

/// One level down, a child slot holds `N` times fewer elements.
pub proof fn lemma_slot_down(n: nat, h: nat)
    requires
        n >= 1,
        h >= 1,
    ensures
        upow(n, h) == n * upow(n, (h - 1) as nat),
        upow(n, h) / n == upow(n, (h - 1) as nat),
{
    lemma_div_multiples_vanish(upow(n, (h - 1) as nat) as int, n as int);
}

/// With a base of at least two, the exponent is told apart by the power:
/// exponent zero gives one, exponent one gives the base.
pub proof fn lemma_upow_levels(n: nat, h: nat)
    requires
        n >= 2,
    ensures
        upow(n, h) == 1 <==> h == 0,
        upow(n, h) == n <==> h == 1,
{
    assert(upow(n, 0) == 1);
    assert(upow(n, 1) == n * upow(n, 0));
    if h >= 1 {
        lemma_upow_strict(n, 0, h);
    }
    if h >= 2 {
        lemma_upow_strict(n, 1, h);
    }
}

impl<T, const N: usize> Item<T, N> {
    /// The elements under this handle, read as a subtree at height `h`
    /// (leaves stand at height zero).
    pub open spec fn elems(self, h: nat) -> Seq<T>
        decreases h, 0nat, 0nat,
    {
        match self {
            Item::Leaf(l) => if h == 0 { l@ } else { Seq::empty() },
            Item::Node(n) => if h > 0 { concat(n@, (h - 1) as nat) } else { Seq::empty() },
        }
    }

    /// A well-formed subtree at height `h`: leaves exactly at height zero,
    /// every node and leaf non-empty and within capacity, and every child but
    /// the last of each node full.
    pub open spec fn wf(self, h: nat) -> bool
        decreases h,
    {
        match self {
            Item::Leaf(l) => h == 0 && 1 <= l@.len() <= N,
            Item::Node(n) => {
                &&& h > 0
                &&& n.holds_leaves() == (h == 1)
                &&& 1 <= n@.len() <= N
                &&& forall|i: int| 0 <= i < n@.len() ==> (#[trigger] n@[i]).wf((h - 1) as nat)
                &&& forall|i: int|
                    0 <= i < n@.len() - 1 ==> (#[trigger] n@[i]).elems((h - 1) as nat).len()
                        == upow(N as nat, h)
            },
        }
    }

    /// Creates a handle to `leaf`.
    pub fn leaf(leaf: Leaf<T, N>) -> (r: Self)
        ensures
            r == Item::Leaf(Arc::new(leaf)),
    {
        Item::Leaf(Arc::new(leaf))
    }

    /// Returns another handle to the same subtree.
    pub fn share(&self) -> (r: Self)
        ensures
            r == *self,
    {
        match self {
            Item::Node(n) => Item::Node(n.clone()),
            Item::Leaf(l) => Item::Leaf(l.clone()),
        }
    }

    /// The element at `index` of the subtree at height `h`; `slot` is the
    /// number of elements one child slot holds at this height.
    pub(crate) fn get_at(&self, Ghost(h): Ghost<nat>, slot: usize, index: usize) -> (r: &T)
        requires
            self.wf(h),
            slot == upow(N as nat, h),
            index < self.elems(h).len(),
        ensures
            *r == self.elems(h)[index as int],
        decreases h,
    {
        match self {
            Item::Leaf(l) => l.at(index),
            Item::Node(n) => {
                let ghost c = (h - 1) as nat;
                proof {
                    lemma_upow_pos(N as nat, h);
                    lemma_slot_down(N as nat, h);
                    assert(n@.last() == n@[n@.len() - 1]);
                    lemma_wf_len(n@.last(), c);
                    lemma_concat_index(n@, c, index as int);
                }
                n.child(index / slot).get_at(Ghost(c), slot / N, index % slot)
            },
        }
    }

    /// A subtree at height `h` holding `value` alone.
    pub(crate) fn path(Ghost(h): Ghost<nat>, slot: usize, value: T) -> (r: Self)
        requires
            N >= 2,
            slot == upow(N as nat, h),
        ensures
            r.wf(h),
            r.elems(h) == seq![value],
        decreases h,
    {
        proof {
            lemma_upow_levels(N as nat, h);
        }
        if slot == 1 {
            let r = Item::leaf(Leaf::singleton(value));
            r
        } else {
            let ghost c = (h - 1) as nat;
            proof {
                lemma_slot_down(N as nat, h);
            }
            let child = Item::path(Ghost(c), slot / N, value);
            let node = Node::singleton(child, slot == N);
            let r = Item::Node(Arc::new(node));
            proof {
                assert(node@.drop_last() =~= Seq::<Item<T, N>>::empty());
                assert(node@.last() == child);
                assert(concat(node@, c) == concat(node@.drop_last(), c) + child.elems(c));
                assert(concat(Seq::<Item<T, N>>::empty(), c) == Seq::<T>::empty());
                assert(r.elems(h) =~= seq![value]);
            }
            r
        }
    }

    /// Appends `value` to the subtree at height `h`, which holds `len`
    /// elements and is not full; only the rightmost path is copied.
    pub(crate) fn pushed(&self, Ghost(h): Ghost<nat>, slot: usize, len: usize, value: T) -> (r: Self)
        requires
            N >= 2,
            self.wf(h),
            slot == upow(N as nat, h),
            len == self.elems(h).len(),
            len < N * slot,
        ensures
            r.wf(h),
            r.elems(h) == self.elems(h).push(value),
        decreases h,
    {
        match self {
            Item::Leaf(l) => {
                proof {
                    assert(upow(N as nat, 0) == 1);
                    assert(self.elems(h) == l@);
                    assert(N * slot == N) by (nonlinear_arith)
                        requires slot == 1;
                }
                let r = Item::leaf(l.pushed(value));
                r
            },
            Item::Node(n) => {
                let ghost c = (h - 1) as nat;
                let ghost cs = n@;
                let k = n.len();
                proof {
                    lemma_upow_pos(N as nat, h);
                    lemma_slot_down(N as nat, h);
                    assert(cs.last() == cs[k - 1]);
                    lemma_wf_len(cs.last(), c);
                    lemma_concat_len(cs, c);
                    assert((k - 1) * slot <= len);
                }
                let before = (k - 1) * slot;
                let last_len = len - before;
                if last_len < slot {
                    let child = n.child(k - 1).pushed(Ghost(c), slot / N, last_len, value);
                    let node = n.replaced(k - 1, child);
                    let r = Item::Node(Arc::new(node));
                    proof {
                        assert(node@.drop_last() =~= cs.drop_last());
                        assert(node@.last() == child);
                        assert(concat(node@, c) == concat(node@.drop_last(), c) + child.elems(c));
                        assert(concat(cs, c) == concat(cs.drop_last(), c) + cs.last().elems(c));
                        assert(concat(node@, c) =~= concat(cs, c).push(value));
                        assert forall|i: int| 0 <= i < node@.len() implies (#[trigger] node@[i]).wf(c) by {
                            if i < k - 1 {
                                assert(node@[i] == cs[i]);
                            }
                        }
                        assert(full_but_last(node@, c)) by {
                            assert forall|i: int| 0 <= i < node@.len() - 1 implies (#[trigger] node@[i]).elems(c).len() == upow(N as nat, c + 1) by {
                                assert(node@[i] == cs[i]);
                            }
                        }
                    }
                    r
                } else {
                    proof {
                        assert(k < N) by (nonlinear_arith)
                            requires len == (k - 1) * slot + slot, len < N * slot, slot >= 1;
                    }
                    let child = Item::path(Ghost(c), slot / N, value);
                    let node = n.pushed(child);
                    let r = Item::Node(Arc::new(node));
                    proof {
                        lemma_concat_push(cs, child, c);
                        assert(node@.last() == child);
                        assert forall|i: int| 0 <= i < node@.len() implies (#[trigger] node@[i]).wf(c) by {
                            if i < k {
                                assert(node@[i] == cs[i]);
                            }
                        }
                        assert(full_but_last(node@, c)) by {
                            assert forall|i: int| 0 <= i < node@.len() - 1 implies (#[trigger] node@[i]).elems(c).len() == upow(N as nat, c + 1) by {
                                assert(node@[i] == cs[i]);
                            }
                        }
                        assert(concat(node@, c) =~= concat(cs, c).push(value));
                    }
                    r
                }
            },
        }
    }

    /// Replaces the element at `index` of the subtree at height `h`; only
    /// the path to it is copied.
    pub(crate) fn set_at(&self, Ghost(h): Ghost<nat>, slot: usize, index: usize, value: T) -> (r: Self)
        requires
            self.wf(h),
            slot == upow(N as nat, h),
            index < self.elems(h).len(),
        ensures
            r.wf(h),
            r.elems(h) == self.elems(h).update(index as int, value),
        decreases h,
    {
        match self {
            Item::Leaf(l) => {
                let r = Item::leaf(l.replaced(index, value));
                r
            },
            Item::Node(n) => {
                let ghost c = (h - 1) as nat;
                let ghost cs = n@;
                let ghost s = slot as int;
                proof {
                    lemma_upow_pos(N as nat, h);
                    lemma_slot_down(N as nat, h);
                    assert(cs.last() == cs[cs.len() - 1]);
                    lemma_wf_len(cs.last(), c);
                    lemma_concat_len(cs, c);
                    lemma_concat_index(cs, c, index as int);
                }
                let j = index / slot;
                let child = n.child(j).set_at(Ghost(c), slot / N, index % slot, value);
                let node = n.replaced(j, child);
                let r = Item::Node(Arc::new(node));
                proof {
                    let ns = node@;
                    assert forall|i: int| 0 <= i < ns.len() implies (#[trigger] ns[i]).wf(c) by {
                        if i != j {
                            assert(ns[i] == cs[i]);
                        }
                    }
                    assert(full_but_last(ns, c)) by {
                        assert forall|i: int| 0 <= i < ns.len() - 1 implies (#[trigger] ns[i]).elems(c).len() == upow(N as nat, c + 1) by {
                            if i != j {
                                assert(ns[i] == cs[i]);
                            }
                        }
                    }
                    assert(ns.last() == ns[ns.len() - 1]);
                    lemma_concat_len(ns, c);
                    let old_all = concat(cs, c);
                    let new_all = concat(ns, c);
                    let want = old_all.update(index as int, value);
                    assert(new_all.len() == want.len());
                    assert forall|k: int| 0 <= k < new_all.len() implies new_all[k] == want[k] by {
                        lemma_concat_index(cs, c, k);
                        lemma_concat_index(ns, c, k);
                        lemma_fundamental_div_mod(k, s);
                        lemma_fundamental_div_mod(index as int, s);
                        if k / s != j {
                            assert(ns[k / s] == cs[k / s]);
                        }
                    }
                    assert(new_all =~= want);
                }
                r
            },
        }
    }

    /// Removes the last element of the subtree at height `h`, which holds
    /// `len` elements; returns the subtree left, or `None` where it held one
    /// element, and the element removed.
    pub(crate) fn popped(&self, Ghost(h): Ghost<nat>, slot: usize, len: usize) -> (r: (Option<Self>, &T))
        requires
            self.wf(h),
            slot == upow(N as nat, h),
            len == self.elems(h).len(),
        ensures
            *r.1 == self.elems(h).last(),
            match r.0 {
                None => len == 1,
                Some(x) => x.wf(h) && x.elems(h) == self.elems(h).drop_last(),
            },
        decreases h,
    {
        proof {
            lemma_wf_len(*self, h);
        }
        match self {
            Item::Leaf(l) => {
                let x = l.at(l.len() - 1);
                if l.len() == 1 {
                    (None, x)
                } else {
                    (Some(Item::leaf(l.popped())), x)
                }
            },
            Item::Node(n) => {
                let ghost c = (h - 1) as nat;
                let ghost cs = n@;
                let k = n.len();
                proof {
                    lemma_upow_pos(N as nat, h);
                    lemma_slot_down(N as nat, h);
                    assert(cs.last() == cs[k - 1]);
                    lemma_wf_len(cs.last(), c);
                    lemma_concat_len(cs, c);
                    assert((k - 1) * slot <= len);
                    assert(concat(cs, c) == concat(cs.drop_last(), c) + cs.last().elems(c));
                }
                let before = (k - 1) * slot;
                let last_len = len - before;
                let (rest, x) = n.child(k - 1).popped(Ghost(c), slot / N, last_len);
                match rest {
                    Some(child) => {
                        let node = n.replaced(k - 1, child);
                        let r = Item::Node(Arc::new(node));
                        proof {
                            assert(node@.drop_last() =~= cs.drop_last());
                            assert(node@.last() == child);
                            assert(concat(node@, c) == concat(node@.drop_last(), c) + child.elems(c));
                            assert(concat(node@, c) =~= concat(cs, c).drop_last());
                            assert forall|i: int| 0 <= i < node@.len() implies (#[trigger] node@[i]).wf(c) by {
                                if i < k - 1 {
                                    assert(node@[i] == cs[i]);
                                }
                            }
                            assert(full_but_last(node@, c)) by {
                                assert forall|i: int| 0 <= i < node@.len() - 1 implies (#[trigger] node@[i]).elems(c).len() == upow(N as nat, c + 1) by {
                                    assert(node@[i] == cs[i]);
                                }
                            }
                        }
                        (Some(r), x)
                    },
                    None => {
                        if k == 1 {
                            proof {
                                assert(cs.drop_last() =~= Seq::<Item<T, N>>::empty());
                                assert(concat(cs.drop_last(), c) == Seq::<T>::empty());
                            }
                            (None, x)
                        } else {
                            let node = n.popped();
                            let r = Item::Node(Arc::new(node));
                            proof {
                                assert(concat(node@, c) =~= concat(cs, c).drop_last());
                                assert forall|i: int| 0 <= i < node@.len() implies (#[trigger] node@[i]).wf(c) by {
                                    assert(node@[i] == cs[i]);
                                }
                                assert(full_but_last(node@, c)) by {
                                    assert forall|i: int| 0 <= i < node@.len() - 1 implies (#[trigger] node@[i]).elems(c).len() == upow(N as nat, c + 1) by {
                                        assert(node@[i] == cs[i]);
                                    }
                                }
                            }
                            (Some(r), x)
                        }
                    },
                }
            },
        }
    }
}

} // verus!
