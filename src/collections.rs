use vstd::prelude::*;

pub mod hash_map;

pub use hash_map::HashMap;
pub use hash_map::RandomState;

verus! {

/// A new, empty map whose hasher is seeded with `seed`.
pub fn new_hashmap<V>(seed: u64) -> (r: HashMap<V>)
    ensures
        r.wf(),
        r@ == Map::<u64, V>::empty(),
{
    HashMap::new(seed)
}

} // verus!
