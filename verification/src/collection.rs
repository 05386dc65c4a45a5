//! Append-only registration of per-worker caches.
//!
//! During the parallel phase each worker registers exactly one cache
//! here; entries are never removed or mutated after insertion, and the
//! collection is read only once all appends have stopped.  That
//! append-only discipline — the only property the merge stage relies on
//! — is exactly what the contracts below state.

use vstd::prelude::*;

use crate::cache::BoundedDeltaCache;

verus! {

pub struct AppendOnlyCollection {
    items: Vec<BoundedDeltaCache>,
}

impl View for AppendOnlyCollection {
    type V = Seq<BoundedDeltaCache>;

    closed spec fn view(&self) -> Seq<BoundedDeltaCache> {
        self.items@
    }
}

impl AppendOnlyCollection {
    pub fn new() -> (r: Self)
        ensures
            r@ == Seq::<BoundedDeltaCache>::empty(),
    {
        let r = AppendOnlyCollection { items: Vec::new() };
        proof {
            assert(r@ =~= Seq::<BoundedDeltaCache>::empty());
        }
        r
    }

    /// Registers one worker's cache; existing entries are untouched.
    pub fn append(&mut self, cache: BoundedDeltaCache)
        ensures
            final(self)@ == old(self)@.push(cache),
    {
        self.items.push(cache);
    }

    pub fn len(&self) -> (r: usize)
        ensures
            r == self@.len(),
    {
        self.items.len()
    }

    /// Hands the registered caches to the merge stage, once appends have
    /// stopped.
    pub fn into_items(self) -> (r: Vec<BoundedDeltaCache>)
        ensures
            r@ == self@,
    {
        self.items
    }
}

} // verus!
