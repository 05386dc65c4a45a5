//! Sets of document ids.
//!
//! A `DocIdSet` is the plain-data stand-in for a compressed document-id
//! bitmap: a strictly increasing vector of ids, viewed as a `Set<u32>`.

use vstd::prelude::*;

verus! {

pub open spec fn strictly_increasing(s: Seq<u32>) -> bool {
    forall|i: int, j: int| 0 <= i < j < s.len() ==> s[i] < s[j]
}

pub proof fn lemma_push_to_set(s: Seq<u32>, v: u32)
    ensures
        (s.push(v)).to_set() == s.to_set().insert(v),
{
    assert((s.push(v)).to_set() =~= s.to_set().insert(v)) by {
        assert forall|x: u32| #[trigger] (s.push(v)).to_set().contains(x) implies s.to_set().insert(
            v,
        ).contains(x) by {
            let idx = choose|idx: int| 0 <= idx < s.push(v).len() && s.push(v)[idx] == x;
            if idx < s.len() {
                assert(s[idx] == x);
                assert(s.contains(x));
            }
        }
        assert forall|x: u32| s.to_set().insert(v).contains(x) implies #[trigger] (s.push(
            v,
        )).to_set().contains(x) by {
            if x == v {
                assert(s.push(v)[s.len() as int] == x);
            } else {
                let idx = choose|idx: int| 0 <= idx < s.len() && s[idx] == x;
                assert(s.push(v)[idx] == x);
            }
            assert(s.push(v).contains(x));
        }
    }
}

pub proof fn lemma_take_snoc_to_set(s: Seq<u32>, i: int)
    requires
        0 <= i < s.len(),
    ensures
        s.take(i + 1).to_set() == s.take(i).to_set().insert(s[i]),
{
    assert(s.take(i + 1) =~= s.take(i).push(s[i]));
    lemma_push_to_set(s.take(i), s[i]);
}

/// A set of document ids, stored strictly increasing.
#[derive(Debug)]
pub struct DocIdSet {
    ids: Vec<u32>,
}

impl View for DocIdSet {
    type V = Set<u32>;

    closed spec fn view(&self) -> Set<u32> {
        self.ids@.to_set()
    }
}

impl DocIdSet {
    pub closed spec fn wf(self) -> bool {
        strictly_increasing(self.ids@)
    }

    pub fn new() -> (r: Self)
        ensures
            r.wf(),
            r@ == Set::<u32>::empty(),
    {
        let r = DocIdSet { ids: Vec::new() };
        proof {
            assert(r@ =~= Set::<u32>::empty());
        }
        r
    }

    pub fn singleton(d: u32) -> (r: Self)
        ensures
            r.wf(),
            r@ == Set::<u32>::empty().insert(d),
    {
        let mut ids: Vec<u32> = Vec::new();
        ids.push(d);
        let r = DocIdSet { ids };
        proof {
            assert(r@ =~= Set::<u32>::empty().insert(d)) by {
                assert forall|x: u32| #[trigger] r.ids@.contains(x) implies x == d by {
                    let idx = choose|idx: int|
                        0 <= idx < r.ids@.len() && r.ids@[idx] == x;
                }
                assert(r.ids@[0] == d);
                assert(r.ids@.contains(d));
            }
        }
        r
    }

    pub fn contains(&self, d: u32) -> (r: bool)
        ensures
            r == self@.contains(d),
    {
        let mut i: usize = 0;
        while i < self.ids.len()
            invariant
                i <= self.ids@.len(),
                forall|j: int| 0 <= j < i ==> self.ids@[j] != d,
            decreases self.ids@.len() - i,
        {
            if self.ids[i] == d {
                proof {
                    assert(self.ids@[i as int] == d);
                    assert(self.ids@.contains(d));
                }
                return true;
            }
            i = i + 1;
        }
        proof {
            assert(!self.ids@.contains(d)) by {
                if self.ids@.contains(d) {
                    let j = choose|j: int| 0 <= j < self.ids@.len() && self.ids@[j] == d;
                }
            }
        }
        false
    }

    /// The ids in ascending order; exposed for consumers of the final
    /// posting stream.
    pub fn ids(&self) -> (r: &Vec<u32>)
        requires
            self.wf(),
        ensures
            strictly_increasing(r@),
            r@.to_set() == self@,
    {
        &self.ids
    }

    pub fn duplicate(&self) -> (r: Self)
        requires
            self.wf(),
        ensures
            r.wf(),
            r@ == self@,
    {
        let mut out: Vec<u32> = Vec::new();
        let mut i: usize = 0;
        while i < self.ids.len()
            invariant
                i <= self.ids@.len(),
                out@ == self.ids@.take(i as int),
            decreases self.ids@.len() - i,
        {
            let v = self.ids[i];
            out.push(v);
            proof {
                assert(self.ids@.take(i + 1) =~= self.ids@.take(i as int).push(self.ids@[i as int]));
            }
            i = i + 1;
        }
        proof {
            assert(self.ids@.take(self.ids@.len() as int) =~= self.ids@);
        }
        let r = DocIdSet { ids: out };
        proof {
            assert(r@ =~= self@);
        }
        r
    }

    /// Union of two id sets, the combine step for add/remove deltas.
    pub fn union_with(&self, other: &Self) -> (r: Self)
        requires
            self.wf(),
            other.wf(),
        ensures
            r.wf(),
            r@ == self@.union(other@),
    {
        let a = &self.ids;
        let b = &other.ids;
        let mut out: Vec<u32> = Vec::new();
        let mut i: usize = 0;
        let mut j: usize = 0;
        while i < a.len() || j < b.len()
            invariant
                i <= a@.len(),
                j <= b@.len(),
                strictly_increasing(a@),
                strictly_increasing(b@),
                strictly_increasing(out@),
                out@.to_set() == a@.take(i as int).to_set().union(b@.take(j as int).to_set()),
                out@.len() > 0 ==> forall|m: int|
                    i <= m < a@.len() ==> out@.last() < #[trigger] a@[m],
                out@.len() > 0 ==> forall|m: int|
                    j <= m < b@.len() ==> out@.last() < #[trigger] b@[m],
            decreases a@.len() - i + b@.len() - j,
        {
            let take_a = if i < a.len() && j < b.len() {
                a[i] <= b[j]
            } else {
                i < a.len()
            };
            if take_a {
                let v = a[i];
                let also_b = j < b.len() && b[j] == v;
                proof {
                    lemma_push_for_sorted(out@, v);
                    lemma_push_to_set(out@, v);
                    lemma_take_snoc_to_set(a@, i as int);
                }
                out.push(v);
                proof {
                    if also_b {
                        lemma_take_snoc_to_set(b@, j as int);

                        assert(out@.to_set() =~= a@.take(i + 1).to_set().union(
                            b@.take(j + 1).to_set(),
                        ));
                    } else {
                        assert(out@.to_set() =~= a@.take(i + 1).to_set().union(
                            b@.take(j as int).to_set(),
                        ));
                    }
                }
                i = i + 1;
                if also_b {
                    j = j + 1;
                }
            } else {
                let v = b[j];
                proof {
                    lemma_push_for_sorted(out@, v);
                    lemma_push_to_set(out@, v);
                    lemma_take_snoc_to_set(b@, j as int);
                }
                out.push(v);
                proof {
                    assert(out@.to_set() =~= a@.take(i as int).to_set().union(
                        b@.take(j + 1).to_set(),
                    ));
                }
                j = j + 1;
            }
        }
        proof {
            assert(a@.take(a@.len() as int) =~= a@);
            assert(b@.take(b@.len() as int) =~= b@);
        }
        let r = DocIdSet { ids: out };
        proof {
            assert(r@ =~= self@.union(other@));
        }
        r
    }

    /// The ids of `self` that are not in `other`.
    pub fn difference_with(&self, other: &Self) -> (r: Self)
        requires
            self.wf(),
            other.wf(),
        ensures
            r.wf(),
            r@ == self@.difference(other@),
    {
        let a = &self.ids;
        let mut out: Vec<u32> = Vec::new();
        let mut i: usize = 0;
        while i < a.len()
            invariant
                i <= a@.len(),
                strictly_increasing(a@),
                strictly_increasing(out@),
                out@.to_set() == a@.take(i as int).to_set().difference(other@),
                out@.len() > 0 ==> forall|m: int|
                    i <= m < a@.len() ==> out@.last() < #[trigger] a@[m],
            decreases a@.len() - i,
        {
            let v = a[i];
            if !other.contains(v) {
                proof {
                    lemma_push_for_sorted(out@, v);
                    lemma_push_to_set(out@, v);
                    lemma_take_snoc_to_set(a@, i as int);
                }
                out.push(v);
                proof {
                    assert(out@.to_set() =~= a@.take(i + 1).to_set().difference(other@));
                }
            } else {
                proof {
                    lemma_take_snoc_to_set(a@, i as int);
                    assert(out@.to_set() =~= a@.take(i + 1).to_set().difference(other@));
                }
            }
            i = i + 1;
        }
        proof {
            assert(a@.take(a@.len() as int) =~= a@);
        }
        let r = DocIdSet { ids: out };
        proof {
            assert(r@ =~= self@.difference(other@));
        }
        r
    }

    pub fn insert_id(&mut self, d: u32)
        requires
            old(self).wf(),
        ensures
            final(self).wf(),
            final(self)@ == old(self)@.insert(d),
    {
        let s = Self::singleton(d);
        let r = self.union_with(&s);
        proof {
            assert(old(self)@.union(s@) =~= old(self)@.insert(d));
        }
        *self = r;
    }
}

/// Pushing a value larger than every stored id keeps the vector strictly
/// increasing.
proof fn lemma_push_for_sorted(s: Seq<u32>, v: u32)
    requires
        strictly_increasing(s),
        s.len() > 0 ==> s.last() < v,
    ensures
        strictly_increasing(s.push(v)),
{
    assert forall|i: int, j: int| 0 <= i < j < s.push(v).len() implies s.push(v)[i] < s.push(
        v,
    )[j] by {
        if j < s.len() {
            assert(s[i] < s[j]);
        } else {
            assert(s.push(v)[j] == v);
            if i < s.len() - 1 {
                assert(s[i] < s[s.len() - 1]);
            }
        }
    }
}

} // verus!
