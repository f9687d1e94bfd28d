//! A tree whose children are looked up by key. Children are kept as a vector
//! of key/subtree pairs; an insert replaces the first entry whose key equals
//! the new one, so a tree built only through `insert` has distinct keys.

use vstd::prelude::*;
use vstd::std_specs::cmp::PartialEqSpec;

verus! {

pub struct HashTree<K, V> {
    pub v: V,
    childs: Vec<(K, HashTree<K, V>)>,
}

impl<K: Eq, V> HashTree<K, V> {
    /// The node's key/subtree pairs, for contracts.
    pub closed spec fn children(&self) -> Seq<(K, HashTree<K, V>)> {
        self.childs@
    }

    /// The node's own value, for contracts.
    pub closed spec fn spec_v(&self) -> V {
        self.v
    }

    /// Does some child's key equal `k` (under the meaning `==` gives keys)?
    pub open spec fn spec_contains_key(&self, k: K) -> bool {
        exists|j: int|
            0 <= j < self.children().len() && (#[trigger] self.children()[j]).0.eq_spec(&k)
    }

    /// The position of the first child whose key equals `k`.
    pub open spec fn key_position(&self, k: K) -> int {
        choose|j: int|
            0 <= j < self.children().len() && (#[trigger] self.children()[j]).0.eq_spec(&k)
            && forall|l: int| 0 <= l < j ==> !(#[trigger] self.children()[l]).0.eq_spec(&k)
    }

    pub fn new(v: V) -> (r: Self)
        ensures
            r.spec_v() == v,
            r.children().len() == 0,
    {
        HashTree { v, childs: Vec::new() }
    }

    /// The subtree stored under `k`, if any.
    pub fn node(&self, k: &K) -> (r: Option<&HashTree<K, V>>)
        requires
            K::obeys_eq_spec(),
        ensures
            r is Some <==> self.spec_contains_key(*k),
            r matches Some(t) ==> *t == self.children()[self.key_position(*k)].1,
    {
        let n = self.childs.len();
        let mut i: usize = 0;
        while i < n
            invariant
                K::obeys_eq_spec(),
                n == self.children().len(),
                i <= n,
                forall|l: int| 0 <= l < i ==> !(#[trigger] self.children()[l]).0.eq_spec(k),
            decreases n - i,
        {
            if self.childs[i].0 == *k {
                proof {
                    let i0 = i as int;
                    assert(0 <= i0 < self.children().len() && self.children()[i0].0.eq_spec(k)
                        && forall|l: int|
                        0 <= l < i0 ==> !(#[trigger] self.children()[l]).0.eq_spec(k));
                    assert(self.key_position(*k) == i0) by {
                        let p = self.key_position(*k);
                        if p != i0 {
                            assert(!self.children()[if p < i0 {
                                p
                            } else {
                                i0
                            }].0.eq_spec(k));
                        }
                    }
                }
                return Some(&self.childs[i].1);
            }
            i = i + 1;
        }
        None
    }

    pub fn contains_key(&self, k: &K) -> (r: bool)
        requires
            K::obeys_eq_spec(),
        ensures
            r == self.spec_contains_key(*k),
    {
        self.node(k).is_some()
    }

    /// Stores `v` as a fresh leaf under `k`, replacing the first child with
    /// that key and handing its old value back, or appending a new child.
    pub fn insert(&mut self, k: K, v: V) -> (r: Option<V>)
        requires
            K::obeys_eq_spec(),
        ensures
            r is Some <==> old(self).spec_contains_key(k),
            final(self).spec_v() == old(self).spec_v(),
            r matches Some(w) ==> {
                let p = old(self).key_position(k);
                &&& w == old(self).children()[p].1.spec_v()
                &&& final(self).children().len() == old(self).children().len()
                &&& forall|l: int|
                    0 <= l < old(self).children().len() && l != p
                        ==> #[trigger] final(self).children()[l] == old(self).children()[l]
                &&& final(self).children()[p].0 == k
                &&& final(self).children()[p].1.spec_v() == v
                &&& final(self).children()[p].1.children().len() == 0
            },
            r is None ==> {
                &&& final(self).children().len() == old(self).children().len() + 1
                &&& forall|l: int|
                    0 <= l < old(self).children().len()
                        ==> #[trigger] final(self).children()[l] == old(self).children()[l]
                &&& final(self).children().last().0 == k
                &&& final(self).children().last().1.spec_v() == v
                &&& final(self).children().last().1.children().len() == 0
            },
    {
        let n = self.childs.len();
        let mut i: usize = 0;
        while i < n
            invariant
                K::obeys_eq_spec(),
                n == self.children().len(),
                i <= n,
                self == old(self),
                forall|l: int| 0 <= l < i ==> !(#[trigger] self.children()[l]).0.eq_spec(&k),
            decreases n - i,
        {
            if self.childs[i].0 == k {
                proof {
                    let i0 = i as int;
                    assert(0 <= i0 < self.children().len() && self.children()[i0].0.eq_spec(&k)
                        && forall|l: int|
                        0 <= l < i0 ==> !(#[trigger] self.children()[l]).0.eq_spec(&k));
                    assert(self.key_position(k) == i0) by {
                        let p = self.key_position(k);
                        if p != i0 {
                            assert(!self.children()[if p < i0 {
                                p
                            } else {
                                i0
                            }].0.eq_spec(&k));
                        }
                    }
                }
                let entry = self.childs.remove(i);
                self.childs.insert(i, (k, HashTree { v, childs: Vec::new() }));
                let (_, old_tree) = entry;
                return Some(old_tree.v);
            }
            i = i + 1;
        }
        self.childs.push((k, HashTree { v, childs: Vec::new() }));
        None
    }

    pub fn count_children(&self) -> (r: usize)
        ensures
            r == self.children().len(),
    {
        self.childs.len()
    }
}

} // verus!
