use super::item::Item;
use vstd::prelude::*;

verus! {

/// An internal tree node: up to `N` child handles, all at the same height.
/// `leaf` records whether the children are leaves.
pub struct Node<T, const N: usize> {
    children: Vec<Item<T, N>>,
    leaf: bool,
}

impl<T, const N: usize> View for Node<T, N> {
    type V = Seq<Item<T, N>>;

    closed spec fn view(&self) -> Seq<Item<T, N>> {
        self.children@
    }
}

impl<T, const N: usize> Node<T, N> {
    /// Whether the children of this node are leaves.
    pub closed spec fn holds_leaves(&self) -> bool {
        self.leaf
    }

    /// Creates a node with no children, whose children are not leaves.
    pub fn new() -> (r: Self)
        ensures
            r@ == Seq::<Item<T, N>>::empty(),
            !r.holds_leaves(),
    {
        let r = Node { children: Vec::new(), leaf: false };
        assert(r@ =~= Seq::<Item<T, N>>::empty());
        r
    }

    /// Creates a node whose single child is `child`.
    pub fn singleton(child: Item<T, N>, leaf: bool) -> (r: Self)
        ensures
            r@ == seq![child],
            r.holds_leaves() == leaf,
    {
        let mut children = Vec::new();
        children.push(child);
        let r = Node { children, leaf };
        assert(r@ =~= seq![child]);
        r
    }

    /// Returns the number of children.
    pub fn len(&self) -> (r: usize)
        ensures
            r == self@.len(),
    {
        self.children.len()
    }

    /// Returns whether the children of this node are leaves.
    pub fn children_are_leaves(&self) -> (r: bool)
        ensures
            r == self.holds_leaves(),
    {
        self.leaf
    }

    /// Returns the child at `index`.
    pub fn child(&self, index: usize) -> (r: &Item<T, N>)
        requires
            index < self@.len(),
        ensures
            *r == self@[index as int],
    {
        &self.children[index]
    }

    /// Copies the first `count` child handles; the subtrees are shared.
    fn copy_prefix(&self, count: usize) -> (r: Vec<Item<T, N>>)
        requires
            count <= self@.len(),
        ensures
            r@ == self@.take(count as int),
    {
        let mut r: Vec<Item<T, N>> = Vec::new();
        let mut i: usize = 0;
        while i < count
            invariant
                i <= count <= self@.len(),
                r@ == self@.take(i as int),
            decreases count - i,
        {
            r.push(self.children[i].share());
            i = i + 1;
            assert(r@ =~= self@.take(i as int));
        }
        r
    }

    /// Returns a copy of this node with `child` appended.
    pub fn pushed(&self, child: Item<T, N>) -> (r: Self)
        ensures
            r@ == self@.push(child),
            r.holds_leaves() == self.holds_leaves(),
    {
        let mut children = self.copy_prefix(self.children.len());
        children.push(child);
        assert(self@.take(self@.len() as int) =~= self@);
        Node { children, leaf: self.leaf }
    }

    /// Returns a copy of this node with the child at `index` replaced by
    /// `child`; every other slot holds the same handle as before.
    pub fn replaced(&self, index: usize, child: Item<T, N>) -> (r: Self)
        requires
            index < self@.len(),
        ensures
            r@ == self@.update(index as int, child),
            r.holds_leaves() == self.holds_leaves(),
    {
        let mut children = self.copy_prefix(self.children.len());
        children.set(index, child);
        assert(self@.take(self@.len() as int) =~= self@);
        Node { children, leaf: self.leaf }
    }

    /// Returns a copy of this node without its last child.
    pub fn popped(&self) -> (r: Self)
        requires
            self@.len() > 0,
        ensures
            r@ == self@.drop_last(),
            r.holds_leaves() == self.holds_leaves(),
    {
        let children = self.copy_prefix(self.children.len() - 1);
        assert(self@.take(self@.len() - 1) =~= self@.drop_last());
        Node { children, leaf: self.leaf }
    }
}

} // verus!
