//! Add/remove deltas for one posting key.
//!
//! A delta records which document ids a key gains and which it loses.
//! Deltas from different sources combine by componentwise union; the
//! combine rule is commutative, associative and idempotent, so the merged
//! result does not depend on processing order.  Applying a delta to a
//! previous membership set removes the removed ids and then adds the
//! added ids, so a document removed and re-added by one change keeps its
//! posting.

use vstd::prelude::*;

use crate::docids::DocIdSet;

verus! {

/// Spec-level model of a delta.
#[verifier::ext_equal]
pub struct DeltaModel {
    pub del: Set<u32>,
    pub add: Set<u32>,
}

pub open spec fn empty_delta() -> DeltaModel {
    DeltaModel { del: Set::empty(), add: Set::empty() }
}

pub open spec fn combine_model(x: DeltaModel, y: DeltaModel) -> DeltaModel {
    DeltaModel { del: x.del.union(y.del), add: x.add.union(y.add) }
}

/// Membership after applying a delta to a previous membership set.
pub open spec fn apply_model(prev: Set<u32>, d: DeltaModel) -> Set<u32> {
    prev.difference(d.del).union(d.add)
}

/// An accumulating add/remove delta.
#[derive(Debug)]
pub struct Delta {
    del: DocIdSet,
    add: DocIdSet,
}

impl View for Delta {
    type V = DeltaModel;

    closed spec fn view(&self) -> DeltaModel {
        DeltaModel { del: self.del@, add: self.add@ }
    }
}

impl Delta {
    pub closed spec fn wf(self) -> bool {
        self.del.wf() && self.add.wf()
    }

    pub fn empty() -> (r: Self)
        ensures
            r.wf(),
            r@ == empty_delta(),
    {
        let r = Delta { del: DocIdSet::new(), add: DocIdSet::new() };
        proof {
            assert(r@ =~= empty_delta());
        }
        r
    }

    /// The delta of one document gaining one posting.
    pub fn added(d: u32) -> (r: Self)
        ensures
            r.wf(),
            r@.del == Set::<u32>::empty(),
            r@.add == Set::<u32>::empty().insert(d),
    {
        Delta { del: DocIdSet::new(), add: DocIdSet::singleton(d) }
    }

    /// The delta of one document losing one posting.
    pub fn removed(d: u32) -> (r: Self)
        ensures
            r.wf(),
            r@.del == Set::<u32>::empty().insert(d),
            r@.add == Set::<u32>::empty(),
    {
        Delta { del: DocIdSet::singleton(d), add: DocIdSet::new() }
    }

    pub fn add_doc(&mut self, d: u32)
        requires
            old(self).wf(),
        ensures
            final(self).wf(),
            final(self)@.del == old(self)@.del,
            final(self)@.add == old(self)@.add.insert(d),
    {
        self.add.insert_id(d);
    }

    pub fn remove_doc(&mut self, d: u32)
        requires
            old(self).wf(),
        ensures
            final(self).wf(),
            final(self)@.del == old(self)@.del.insert(d),
            final(self)@.add == old(self)@.add,
    {
        self.del.insert_id(d);
    }

    /// Combines two deltas for the same key: unions of removes and adds.
    pub fn combine_with(&self, other: &Self) -> (r: Self)
        requires
            self.wf(),
            other.wf(),
        ensures
            r.wf(),
            r@ == combine_model(self@, other@),
    {
        let r = Delta {
            del: self.del.union_with(&other.del),
            add: self.add.union_with(&other.add),
        };
        proof {
            assert(r@ =~= combine_model(self@, other@));
        }
        r
    }

    /// Resolves this delta against a previous membership set.
    pub fn apply(&self, prev: &DocIdSet) -> (r: DocIdSet)
        requires
            self.wf(),
            prev.wf(),
        ensures
            r.wf(),
            r@ == apply_model(prev@, self@),
    {
        prev.difference_with(&self.del).union_with(&self.add)
    }

    pub fn duplicate(&self) -> (r: Self)
        requires
            self.wf(),
        ensures
            r.wf(),
            r@ == self@,
    {
        let r = Delta { del: self.del.duplicate(), add: self.add.duplicate() };
        proof {
            assert(r@ =~= self@);
        }
        r
    }

    pub fn del_ids(&self) -> (r: &DocIdSet)
        requires
            self.wf(),
        ensures
            r.wf(),
            r@ == self@.del,
    {
        &self.del
    }

    pub fn add_ids(&self) -> (r: &DocIdSet)
        requires
            self.wf(),
        ensures
            r.wf(),
            r@ == self@.add,
    {
        &self.add
    }
}

/// Law: combining deltas is commutative.
pub proof fn lemma_combine_commutative(x: DeltaModel, y: DeltaModel)
    ensures
        combine_model(x, y) == combine_model(y, x),
{
    assert(combine_model(x, y) =~= combine_model(y, x));
}

/// Law: combining deltas is associative.
pub proof fn lemma_combine_associative(x: DeltaModel, y: DeltaModel, z: DeltaModel)
    ensures
        combine_model(combine_model(x, y), z) == combine_model(x, combine_model(y, z)),
{
    assert(combine_model(combine_model(x, y), z) =~= combine_model(x, combine_model(y, z)));
}

/// Law: the empty delta is the identity of combining.
pub proof fn lemma_combine_empty(x: DeltaModel)
    ensures
        combine_model(empty_delta(), x) == x,
        combine_model(x, empty_delta()) == x,
{
    assert(combine_model(empty_delta(), x) =~= x);
    assert(combine_model(x, empty_delta()) =~= x);
}

/// Law: merging two identical deltas resolves to the same membership as
/// one of them, whatever the previous state.
pub proof fn lemma_combine_idempotent(x: DeltaModel, prev: Set<u32>)
    ensures
        combine_model(x, x) == x,
        apply_model(prev, combine_model(x, x)) == apply_model(prev, x),
{
    assert(combine_model(x, x) =~= x);
}

/// Law: applying a delta twice gives the same membership as applying it
/// once.
pub proof fn lemma_apply_idempotent(prev: Set<u32>, x: DeltaModel)
    ensures
        apply_model(apply_model(prev, x), x) == apply_model(prev, x),
{
    assert(apply_model(apply_model(prev, x), x) =~= apply_model(prev, x));
}

} // verus!
