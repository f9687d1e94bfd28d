//! A plain owned tree: each node holds a value and a vector of child nodes,
//! so the structure is acyclic by construction.

use vstd::prelude::*;

verus! {

pub struct VecTree<V> {
    pub value: V,
    pub children: Vec<VecTree<V>>,
}

impl<V> VecTree<V> {
    pub fn new(v: V) -> (r: Self)
        ensures
            r.value == v,
            r.children@.len() == 0,
    {
        VecTree { value: v, children: Vec::new() }
    }
}

} // verus!
