//! A minimal owned tree whose children are reached through borrowed vectors.

use vstd::prelude::*;

verus! {

pub struct SimpleTree<T> {
    pub elem: T,
    childs: Vec<SimpleTree<T>>,
}

impl<T> SimpleTree<T> {
    /// The node's children, for contracts.
    pub closed spec fn children(&self) -> Seq<SimpleTree<T>> {
        self.childs@
    }

    /// The node's own element, for contracts.
    pub closed spec fn spec_elem(&self) -> T {
        self.elem
    }

    pub fn new(elem: T) -> (r: Self)
        ensures
            r.spec_elem() == elem,
            r.children().len() == 0,
    {
        SimpleTree { elem, childs: Vec::new() }
    }

    pub fn get_children(&self) -> (r: &Vec<SimpleTree<T>>)
        ensures
            r@ == self.children(),
    {
        &self.childs
    }

    pub fn get_children_mut(&mut self) -> (r: &mut Vec<SimpleTree<T>>)
        ensures
            r@ == old(self).children(),
            final(self).children() == final(r)@,
            final(self).spec_elem() == old(self).spec_elem(),
    {
        &mut self.childs
    }

    /// Appends a new leaf holding `child` and returns a mutable borrow of it.
    pub fn add_child(&mut self, child: T) -> (r: &mut SimpleTree<T>)
        ensures
            r.spec_elem() == child,
            r.children().len() == 0,
            final(self).spec_elem() == old(self).spec_elem(),
            final(self).children() =~= old(self).children().push(*final(r)),
    {
        let i = self.childs.len();
        self.childs.push(SimpleTree { elem: child, childs: Vec::new() });
        &mut self.childs[i]
    }
}

} // verus!
