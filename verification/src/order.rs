//! Sets of addresses in ascending order.

use std::collections::{BTreeMap, BTreeSet};
use vstd::prelude::*;
use vstd::std_specs::cmp::OrdSpec;
use vstd::std_specs::iter::IteratorSpec;

verus! {

broadcast use {
    vstd::std_specs::btree::group_btree_axioms,
    vstd::laws_cmp::group_laws_cmp,
};

/// The members of the set below `limit`, in ascending order.
pub open spec fn members_below(addresses: Set<u64>, limit: int) -> Seq<u64>
    decreases limit,
{
    if limit <= 0 {
        Seq::empty()
    } else if limit - 1 <= 0xFFFF_FFFF_FFFF_FFFF && addresses.contains((limit - 1) as u64) {
        members_below(addresses, limit - 1).push((limit - 1) as u64)
    } else {
        members_below(addresses, limit - 1)
    }
}

/// The members of the set in ascending order.
pub open spec fn in_order(addresses: Set<u64>) -> Seq<u64> {
    members_below(addresses, 0x1_0000_0000_0000_0000)
}

/// Whether each address is above those before it.
pub open spec fn climbing(addresses: Seq<u64>) -> bool {
    forall|i: int, j: int| 0 <= i < j < addresses.len() ==> addresses[i] < addresses[j]
}

/// The addresses of a set in ascending order.
pub fn ascending(addresses: &BTreeSet<u64>) -> (list: Vec<u64>)
    ensures
        list@ == in_order(addresses@),
        list@.len() == addresses@.len(),
{
    let mut list: Vec<u64> = Vec::new();
    let ghost all = addresses.iter().remaining();
    for address in it: addresses.iter()
        invariant
            it.seq() == all,
            list@ == all.unref().take(it.index()),
    {
        list.push(*address);
        assert(list@ =~= all.unref().take(it.index() + 1));
    }
    proof {
        assert(list@ =~= all.unref());
        assert(climbing(list@)) by {
            assert(vstd::std_specs::btree::increasing_seq(all));
            assert forall|i: int, j: int| 0 <= i < j < list@.len() implies list@[i] < list@[j] by {
                lemma_increasing(all, i, j);
                assert(*all[i] == list@[i]);
                assert(*all[j] == list@[j]);
            }
        }
        lemma_in_order(addresses@, list@);
    }
    list
}

/// The keys of a map in ascending order.
pub fn ascending_keys<V>(map: &BTreeMap<u64, V>) -> (list: Vec<u64>)
    ensures
        list@ == in_order(map@.dom()),
        list@.len() == map@.dom().len(),
{
    let mut list: Vec<u64> = Vec::new();
    let ghost all = map.keys().remaining();
    for address in it: map.keys()
        invariant
            it.seq() == all,
            list@ == all.unref().take(it.index()),
    {
        list.push(*address);
        assert(list@ =~= all.unref().take(it.index() + 1));
    }
    proof {
        assert(list@ =~= all.unref());
        assert(climbing(list@)) by {
            assert(vstd::std_specs::btree::increasing_seq(all));
            assert forall|i: int, j: int| 0 <= i < j < list@.len() implies list@[i] < list@[j] by {
                lemma_increasing(all, i, j);
                assert(*all[i] == list@[i]);
                assert(*all[j] == list@[j]);
            }
        }
        lemma_in_order(map@.dom(), list@);
    }
    list
}

proof fn lemma_increasing<K: Ord>(keys: Seq<K>, i: int, j: int)
    requires
        vstd::laws_cmp::obeys_cmp::<K>(),
        vstd::std_specs::btree::increasing_seq(keys),
        0 <= i < j < keys.len(),
    ensures
        keys[i].cmp_spec(&keys[j]) is Less,
{
}

proof fn lemma_members_below(addresses: Set<u64>, limit: int)
    ensures
        climbing(members_below(addresses, limit)),
        forall|i: int|
            0 <= i < members_below(addresses, limit).len() ==> addresses.contains(
                #[trigger] members_below(addresses, limit)[i],
            ) && members_below(addresses, limit)[i] < limit,
        forall|address: u64|
            addresses.contains(address) && address < limit ==> #[trigger] members_below(
                addresses,
                limit,
            ).contains(address),
    decreases limit,
{
    if limit > 0 {
        lemma_members_below(addresses, limit - 1);
        let before = members_below(addresses, limit - 1);
        let after = members_below(addresses, limit);
        assert forall|address: u64| addresses.contains(address) && address < limit implies #[trigger] after.contains(
            address,
        ) by {
            if address < limit - 1 {
                assert(before.contains(address));
                let i: int = choose|i: int| 0 <= i < before.len() && before[i] == address;
                assert(after[i] == address);
            } else {
                assert(after[after.len() - 1] == address);
            }
        }
    }
}

proof fn lemma_climbing_unique(left: Seq<u64>, right: Seq<u64>)
    requires
        climbing(left),
        climbing(right),
        forall|address: u64| left.contains(address) <==> right.contains(address),
    ensures
        left == right,
    decreases left.len(),
{
    if left.len() == 0 {
        if right.len() > 0 {
            assert(right.contains(right[0]));
        }
        assert(left =~= right);
    } else {
        assert(left.contains(left.last()));
        assert(right.contains(left.last()));
        assert(right.contains(right.last()));
        assert(left.contains(right.last()));
        let i: int = choose|i: int| 0 <= i < right.len() && right[i] == left.last();
        let j: int = choose|j: int| 0 <= j < left.len() && left[j] == right.last();
        assert(left.last() == right.last());
        assert forall|address: u64| left.drop_last().contains(address) <==> right.drop_last().contains(
            address,
        ) by {
            if left.drop_last().contains(address) {
                let k: int = choose|k: int| 0 <= k < left.drop_last().len() && left.drop_last()[k] == address;
                assert(left[k] == address);
                assert(right.contains(address));
                let m: int = choose|m: int| 0 <= m < right.len() && right[m] == address;
                assert(right.drop_last()[m] == address);
            }
            if right.drop_last().contains(address) {
                let k: int = choose|k: int| 0 <= k < right.drop_last().len() && right.drop_last()[k] == address;
                assert(right[k] == address);
                assert(left.contains(address));
                let m: int = choose|m: int| 0 <= m < left.len() && left[m] == address;
                assert(left.drop_last()[m] == address);
            }
        }
        lemma_climbing_unique(left.drop_last(), right.drop_last());
        assert(left =~= left.drop_last().push(left.last()));
        assert(right =~= right.drop_last().push(right.last()));
    }
}

proof fn lemma_in_order(addresses: Set<u64>, list: Seq<u64>)
    requires
        climbing(list),
        list.to_set() == addresses,
    ensures
        list == in_order(addresses),
{
    lemma_members_below(addresses, 0x1_0000_0000_0000_0000);
    assert forall|address: u64| list.contains(address) <==> in_order(addresses).contains(address) by {
        assert(list.to_set().contains(address) == list.contains(address));
    }
    lemma_climbing_unique(list, in_order(addresses));
}

/// Listing a set in order loses no member, adds none, and gives each once.
pub proof fn law_in_order_lists_the_set(addresses: Set<u64>)
    ensures
        climbing(in_order(addresses)),
        forall|address: u64| addresses.contains(address) <==> #[trigger] in_order(addresses).contains(address),
{
    lemma_members_below(addresses, 0x1_0000_0000_0000_0000);
}

} // verus!
