//! Price levels kept in a `BTreeMap` keyed by price, and the ordered reads of it.
use std::collections::BTreeMap;

use vstd::prelude::*;
use vstd::std_specs::cmp::OrdSpec;
use vstd::std_specs::iter::IteratorSpec;

use super::arena::NodeId;
use crate::domain::{Price, Quantity};

verus! {

broadcast use vstd::laws_cmp::group_laws_cmp;

/// The head-and-tail record of one price level's FIFO queue, with its aggregates.
#[derive(Debug, Clone, Copy)]
pub struct PriceLevel {
    pub quantity: Quantity,
    pub head: Option<NodeId>,
    pub tail: Option<NodeId>,
    pub count: usize,
}

/// `BTreeMap::first_key_value`: the entry with the smallest key, or `None` for an
/// empty map. Claimed: the key is in the map with that value and no key is smaller.
#[verifier::external_body]
pub(crate) fn first_level(levels: &BTreeMap<Price, PriceLevel>) -> (r: Option<(Price, PriceLevel)>)
    ensures
        r is None ==> levels@.dom() == Set::<Price>::empty(),
        r matches Some((p, level)) ==> levels@.contains_key(p) && levels@[p] == level && forall|
            q: Price,
        | #[trigger] levels@.contains_key(q) ==> p <= q,
{
    match levels.first_key_value() {
        Some((p, level)) => Some((*p, *level)),
        None => None,
    }
}

/// `BTreeMap::last_key_value`: the entry with the largest key, or `None` for an empty
/// map. Claimed: the key is in the map with that value and no key is larger.
#[verifier::external_body]
pub(crate) fn last_level(levels: &BTreeMap<Price, PriceLevel>) -> (r: Option<(Price, PriceLevel)>)
    ensures
        r is None ==> levels@.dom() == Set::<Price>::empty(),
        r matches Some((p, level)) ==> levels@.contains_key(p) && levels@[p] == level && forall|
            q: Price,
        | #[trigger] levels@.contains_key(q) ==> q <= p,
{
    match levels.last_key_value() {
        Some((p, level)) => Some((*p, *level)),
        None => None,
    }
}

/// Every level of the map, in increasing price order.
pub(crate) fn levels_ascending(levels: &BTreeMap<Price, PriceLevel>) -> (r: Vec<(Price, PriceLevel)>)
    ensures
        r@.len() == levels@.dom().len(),
        forall|i: int|
            0 <= i < r@.len() ==> levels@.contains_key(#[trigger] r@[i].0) && levels@[r@[i].0]
                == r@[i].1,
        forall|i: int, j: int| 0 <= i < j < r@.len() ==> r@[i].0 < r@[j].0,
        forall|p: Price| #[trigger]
            levels@.contains_key(p) ==> exists|i: int| 0 <= i < r@.len() && r@[i].0 == p,
{
    let mut r: Vec<(Price, PriceLevel)> = Vec::new();
    let iter = levels.iter();
    let ghost whole = iter.remaining();
    proof {
        let keys = whole.map_values(|kv: (&Price, &PriceLevel)| *kv.0);
        assert(vstd::std_specs::btree::increasing_seq(keys));
        assert forall|i: int, j: int| 0 <= i < j < whole.len() implies *whole[i].0
            < *whole[j].0 by {
            assert(keys[i].cmp_spec(&keys[j]) is Less);
        }
        assert forall|p: Price| #[trigger] levels@.contains_key(p) implies exists|i: int|
            0 <= i < whole.len() && *whole[i].0 == p by {
            assert(whole.contains((&p, &levels@[p])));
        }
    }
    for kv in it: iter
        invariant
            it.seq() == whole,
            whole.len() == levels@.dom().len(),
            forall|i: int|
                0 <= i < whole.len() ==> levels@.contains_key(*whole[i].0) && levels@[*whole[i].0]
                    == *whole[i].1,
            forall|i: int, j: int| 0 <= i < j < whole.len() ==> *whole[i].0 < *whole[j].0,
            r@.len() == it.index(),
            forall|i: int| 0 <= i < r@.len() ==> r@[i].0 == *whole[i].0 && r@[i].1 == *whole[i].1,
    {
        r.push((*kv.0, *kv.1));
    }
    proof {
        assert(r@.len() == whole.len());
        assert forall|i: int| 0 <= i < r@.len() implies levels@.contains_key(
            #[trigger] r@[i].0,
        ) && levels@[r@[i].0] == r@[i].1 by {
            assert(r@[i].0 == *whole[i].0);
        }
        assert forall|i: int, j: int| 0 <= i < j < r@.len() implies r@[i].0 < r@[j].0 by {
            assert(r@[i].0 == *whole[i].0);
            assert(r@[j].0 == *whole[j].0);
        }
        assert forall|p: Price| #[trigger] levels@.contains_key(p) implies exists|i: int|
            0 <= i < r@.len() && r@[i].0 == p by {
            let i = choose|i: int| 0 <= i < whole.len() && *whole[i].0 == p;
            assert(r@[i].0 == p);
        }
    }
    r
}

} // verus!
