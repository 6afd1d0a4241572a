//! Sets of identifiers that are quick to look into.
use crate::gid::Gid;
use std::collections::HashSet;
use vstd::prelude::*;
use vstd::std_specs::hash::*;

verus! {

broadcast use vstd::std_specs::hash::group_hash_axioms;

/// A set of identifiers.
#[derive(Debug)]
pub struct GidHashSet {
    ids: HashSet<u128>,
}

impl View for GidHashSet {
    type V = Set<Gid>;

    closed spec fn view(&self) -> Set<Gid> {
        Set::new(|gid: Gid| self.ids@.contains(gid.id))
    }
}

impl GidHashSet {
    pub fn new() -> (r: GidHashSet)
        ensures
            r@ == Set::<Gid>::empty(),
    {
        let r = GidHashSet { ids: HashSet::new() };
        assert(r@ =~= Set::<Gid>::empty());
        r
    }

    pub fn insert(&mut self, gid: Gid)
        ensures
            final(self)@ == old(self)@.insert(gid),
    {
        self.ids.insert(gid.id);
        assert(self@ =~= old(self)@.insert(gid));
    }

    pub fn contains(&self, gid: &Gid) -> (r: bool)
        ensures
            r == self@.contains(*gid),
    {
        self.ids.contains(&gid.id)
    }
}

} // verus!
