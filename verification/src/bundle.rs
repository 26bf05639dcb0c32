//! Bundles: collections of component values delivered to an archetype.
//!
//! A bundle pairs each component type id with the value to store. Archetype
//! operations consume a bundle as a whole, so a row is written in one step.

use vstd::prelude::*;

verus! {

/// True when some pair in `items` carries component id `id`.
pub open spec fn bundle_has(items: Seq<(u64, u64)>, id: u64) -> bool {
    exists|j: int| 0 <= j < items.len() && (#[trigger] items[j]).0 == id
}

/// The value paired with `id`; meaningful when the ids are distinct.
pub open spec fn bundle_value(items: Seq<(u64, u64)>, id: u64) -> u64 {
    items[choose|j: int| 0 <= j < items.len() && (#[trigger] items[j]).0 == id].1
}

/// No component id occurs twice.
pub open spec fn distinct_ids(items: Seq<(u64, u64)>) -> bool {
    forall|i: int, j: int| 0 <= i < j < items.len() ==> (#[trigger] items[i]).0 != (
    #[trigger] items[j]).0
}

/// With distinct ids, the value looked up for `items[j].0` is `items[j].1`.
pub proof fn lemma_bundle_value_at(items: Seq<(u64, u64)>, j: int)
    requires
        distinct_ids(items),
        0 <= j < items.len(),
    ensures
        bundle_has(items, items[j].0),
        bundle_value(items, items[j].0) == items[j].1,
{
    let id = items[j].0;
    assert(bundle_has(items, id));
    let k = choose|k: int| 0 <= k < items.len() && (#[trigger] items[k]).0 == id;
    if k < j {
        assert(items[k].0 != items[j].0);
    } else if k > j {
        assert(items[j].0 != items[k].0);
    }
}

/// A collection of component values that an archetype can absorb in one
/// operation. The engine implements this for its own value carriers; the
/// library provides [`DynBundle`] as the plain form.
pub trait DynamicBundle: Sized {
    /// The `(component id, value)` pairs the bundle will deliver, in order.
    spec fn items(&self) -> Seq<(u64, u64)>;

    /// True when no component type occurs twice. Archetypes reject bundles
    /// with duplicates.
    fn valid(&self) -> (r: bool)
        ensures
            r == distinct_ids(self.items()),
    ;

    /// The component ids, in bundle order.
    fn with_ids(&self) -> (r: Vec<u64>)
        ensures
            r@.len() == self.items().len(),
            forall|j: int| 0 <= j < r@.len() ==> r@[j] == (#[trigger] self.items()[j]).0,
    ;

    /// Hands over every component value exactly once, in bundle order.
    fn put(self) -> (r: Vec<(u64, u64)>)
        ensures
            r@ == self.items(),
    ;
}

/// A bundle whose shape is fixed for the life of the value; the plain bundle
/// qualifies, and the engine may mark its statically shaped carriers with it.
pub trait Bundle: DynamicBundle {

}

/// The plain bundle: an explicit list of `(component id, value)` pairs.
pub struct DynBundle {
    pub pairs: Vec<(u64, u64)>,
}

impl DynBundle {
    pub open spec fn spec_items(&self) -> Seq<(u64, u64)> {
        self.pairs@
    }

    pub open spec fn spec_valid(&self) -> bool {
        distinct_ids(self.pairs@)
    }

    pub fn new(pairs: Vec<(u64, u64)>) -> (b: Self)
        ensures
            b.pairs@ == pairs@,
    {
        DynBundle { pairs }
    }
}

impl DynamicBundle for DynBundle {
    open spec fn items(&self) -> Seq<(u64, u64)> {
        self.pairs@
    }

    fn valid(&self) -> (r: bool) {
        let mut i: usize = 0;
        while i < self.pairs.len()
            invariant
                i <= self.pairs@.len(),
                forall|a: int, b: int|
                    0 <= a < b < self.pairs@.len() && a < i ==> (#[trigger] self.pairs@[a]).0 != (
                    #[trigger] self.pairs@[b]).0,
            decreases self.pairs@.len() - i,
        {
            let mut j: usize = i + 1;
            while j < self.pairs.len()
                invariant
                    i < j <= self.pairs@.len() || self.pairs@.len() == 0,
                    i < self.pairs@.len(),
                    forall|b: int|
                        i < b < j ==> (#[trigger] self.pairs@[b]).0 != self.pairs@[i as int].0,
                decreases self.pairs@.len() - j,
            {
                if self.pairs[j].0 == self.pairs[i].0 {
                    return false;
                }
                j = j + 1;
            }
            i = i + 1;
        }
        true
    }

    fn with_ids(&self) -> (r: Vec<u64>) {
        let mut r: Vec<u64> = Vec::new();
        let mut j: usize = 0;
        while j < self.pairs.len()
            invariant
                j <= self.pairs@.len(),
                r@.len() == j,
                forall|k: int| 0 <= k < j ==> r@[k] == (#[trigger] self.pairs@[k]).0,
            decreases self.pairs@.len() - j,
        {
            r.push(self.pairs[j].0);
            j = j + 1;
        }
        r
    }

    fn put(self) -> (r: Vec<(u64, u64)>) {
        self.pairs
    }
}

impl Bundle for DynBundle {

}

} // verus!
