//! Sets of pointer slots.

use std::collections::BTreeSet;
use vstd::prelude::*;

use crate::order::{ascending, in_order};

verus! {

broadcast use {
    vstd::std_specs::btree::group_btree_axioms,
    vstd::laws_cmp::group_laws_cmp,
};

/// A set of pointer slots, each by its address in the image.
pub struct SlotSet {
    slots: BTreeSet<u64>,
}

impl View for SlotSet {
    type V = Set<u64>;

    closed spec fn view(&self) -> Set<u64> {
        self.slots@
    }
}

impl SlotSet {
    pub fn new() -> (set: SlotSet)
        ensures
            set@ == Set::<u64>::empty(),
    {
        SlotSet { slots: BTreeSet::new() }
    }

    pub fn insert(&mut self, slot: u32)
        ensures
            final(self)@ == old(self)@.insert(slot as u64),
    {
        self.slots.insert(slot as u64);
    }

    pub fn contains(&self, slot: u32) -> (result: bool)
        ensures
            result == self@.contains(slot as u64),
    {
        self.slots.contains(&(slot as u64))
    }

    pub fn len(&self) -> (length: usize)
        ensures
            length == self@.len(),
    {
        self.slots.len()
    }

    /// The slots in ascending order.
    pub fn ascending(&self) -> (list: Vec<u64>)
        ensures
            list@ == in_order(self@),
    {
        ascending(&self.slots)
    }
}

} // verus!
