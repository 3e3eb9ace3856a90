use std::sync::Arc;
use vstd::prelude::*;

verus! {

/// A tree node at depth zero: up to `N` elements, stored in index order.
///
/// Each element sits behind its own `Arc`, so a copy of a leaf shares its
/// elements with the source and the element type needs no `Clone`.
pub struct Leaf<T, const N: usize> {
    elements: Vec<Arc<T>>,
}

impl<T, const N: usize> View for Leaf<T, N> {
    type V = Seq<T>;

    closed spec fn view(&self) -> Seq<T> {
        self.elements@.map_values(|e: Arc<T>| *e)
    }
}

impl<T, const N: usize> Leaf<T, N> {
    /// The occupancy never exceeds the capacity `N`.
    pub open spec fn wf(&self) -> bool {
        self@.len() <= N
    }

    /// Creates an empty leaf.
    pub fn new() -> (r: Self)
        ensures
            r.wf(),
            r@ == Seq::<T>::empty(),
    {
        let r = Leaf { elements: Vec::new() };
        assert(r@ =~= Seq::<T>::empty());
        r
    }

    /// Creates a leaf that holds one element.
    pub fn singleton(value: T) -> (r: Self)
        requires
            N >= 1,
        ensures
            r.wf(),
            r@ == seq![value],
    {
        let mut elements = Vec::new();
        elements.push(Arc::new(value));
        let r = Leaf { elements };
        assert(r@ =~= seq![value]);
        r
    }

    /// Returns the occupancy.
    pub fn len(&self) -> (r: usize)
        ensures
            r == self@.len(),
    {
        self.elements.len()
    }

    /// Returns the element at `index`, or `None` past the occupancy.
    pub fn get(&self, index: usize) -> (r: Option<&T>)
        ensures
            match r {
                Some(x) => index < self@.len() && *x == self@[index as int],
                None => index >= self@.len(),
            },
    {
        if index < self.elements.len() {
            Some(&*self.elements[index])
        } else {
            None
        }
    }

    /// Returns the element at `index`, which lies below the occupancy.
    pub fn at(&self, index: usize) -> (r: &T)
        requires
            index < self@.len(),
        ensures
            *r == self@[index as int],
    {
        &*self.elements[index]
    }

    /// Copies the first `count` element handles into a new vector; the
    /// elements themselves are shared.
    fn copy_prefix(&self, count: usize) -> (r: Vec<Arc<T>>)
        requires
            count <= self.elements@.len(),
        ensures
            r@ == self.elements@.take(count as int),
    {
        let mut r: Vec<Arc<T>> = Vec::new();
        let mut i: usize = 0;
        while i < count
            invariant
                i <= count <= self.elements@.len(),
                r@ == self.elements@.take(i as int),
            decreases count - i,
        {
            r.push(self.elements[i].clone());
            i = i + 1;
            assert(r@ =~= self.elements@.take(i as int));
        }
        r
    }

    /// Returns a copy of this leaf with `value` appended.
    pub fn pushed(&self, value: T) -> (r: Self)
        requires
            self@.len() < N,
        ensures
            r.wf(),
            r@ == self@.push(value),
    {
        let mut elements = self.copy_prefix(self.elements.len());
        elements.push(Arc::new(value));
        let r = Leaf { elements };
        assert(self.elements@.take(self.elements@.len() as int) =~= self.elements@);
        assert(r@ =~= self@.push(value));
        r
    }

    /// Returns a copy of this leaf with the element at `index` replaced by
    /// `value`.
    pub fn replaced(&self, index: usize, value: T) -> (r: Self)
        requires
            self.wf(),
            index < self@.len(),
        ensures
            r.wf(),
            r@ == self@.update(index as int, value),
    {
        let mut elements = self.copy_prefix(self.elements.len());
        elements.set(index, Arc::new(value));
        let r = Leaf { elements };
        assert(self.elements@.take(self.elements@.len() as int) =~= self.elements@);
        assert(r@ =~= self@.update(index as int, value));
        r
    }

    /// Returns a copy of this leaf without its last element.
    pub fn popped(&self) -> (r: Self)
        requires
            self.wf(),
            self@.len() > 0,
        ensures
            r.wf(),
            r@ == self@.drop_last(),
    {
        let elements = self.copy_prefix(self.elements.len() - 1);
        let r = Leaf { elements };
        assert(r@ =~= self@.drop_last());
        r
    }
}

} // verus!
