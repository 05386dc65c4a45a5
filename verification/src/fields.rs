//! Field name -> field id registry.
//!
//! Each worker holds its own clone of the registry, so it can resolve or
//! provisionally extend ids without locking anybody else.  Resolution
//! never reassigns: ids already given out survive every later
//! resolution, which is what keeps a field name on the same id across
//! all clones observed during one extraction run.

use vstd::prelude::*;

use crate::order::bytes_equal;

verus! {

/// Registry mapping a field name to its stable integer id (the index at
/// which the name was first recorded).
pub struct GlobalFieldsIdsMap {
    names: Vec<Vec<u8>>,
}

impl View for GlobalFieldsIdsMap {
    type V = Seq<Seq<u8>>;

    closed spec fn view(&self) -> Seq<Seq<u8>> {
        Seq::new(self.names@.len() as nat, |i: int| self.names@[i]@)
    }
}

impl GlobalFieldsIdsMap {
    /// Names are recorded once: distinct ids always carry distinct names.
    pub open spec fn wf(self) -> bool {
        forall|i: int, j: int| 0 <= i < j < self@.len() ==> self@[i] != self@[j]
    }

    pub fn new() -> (r: Self)
        ensures
            r.wf(),
            r@ == Seq::<Seq<u8>>::empty(),
    {
        let r = GlobalFieldsIdsMap { names: Vec::new() };
        proof {
            assert(r@ =~= Seq::<Seq<u8>>::empty());
        }
        r
    }

    /// The private copy a worker takes at first use.
    pub fn duplicate(&self) -> (r: Self)
        requires
            self.wf(),
        ensures
            r.wf(),
            r@ == self@,
    {
        let mut names: Vec<Vec<u8>> = Vec::new();
        let mut i: usize = 0;
        while i < self.names.len()
            invariant
                i <= self.names@.len(),
                names@.len() == i,
                forall|j: int| 0 <= j < i ==> (#[trigger] names@[j])@ == self@[j],
            decreases self.names@.len() - i,
        {
            let mut w: Vec<u8> = Vec::new();
            let src = &self.names[i];
            let mut t: usize = 0;
            while t < src.len()
                invariant
                    t <= src@.len(),
                    w@ == src@.take(t as int),
                decreases src@.len() - t,
            {
                let b = src[t];
                w.push(b);
                proof {
                    assert(src@.take(t + 1) =~= src@.take(t as int).push(src@[t as int]));
                }
                t = t + 1;
            }
            proof {
                assert(src@.take(src@.len() as int) =~= src@);
            }
            names.push(w);
            i = i + 1;
        }
        let r = GlobalFieldsIdsMap { names };
        proof {
            assert(r@ =~= self@);
        }
        r
    }

    /// The id already given to `name`, if any.
    pub fn id_of(&self, name: &Vec<u8>) -> (r: Option<usize>)
        ensures
            r is Some ==> {
                let id = r->Some_0 as int;
                0 <= id < self@.len() && self@[id] == name@
            },
            r is None ==> !self@.contains(name@),
    {
        let mut i: usize = 0;
        while i < self.names.len()
            invariant
                i <= self.names@.len(),
                forall|j: int| 0 <= j < i ==> self@[j] != name@,
            decreases self.names@.len() - i,
        {
            if bytes_equal(&self.names[i], name) {
                proof {
                    assert(self@[i as int] == name@);
                }
                return Some(i);
            }
            i = i + 1;
        }
        proof {
            assert(!self@.contains(name@)) by {
                if self@.contains(name@) {
                    let j = choose|j: int| 0 <= j < self@.len() && self@[j] == name@;
                }
            }
        }
        None
    }

    /// Resolves `name` to its id, recording it under a fresh id when it
    /// is new.  Existing assignments are never changed.
    pub fn resolve_or_add(&mut self, name: &Vec<u8>) -> (id: usize)
        requires
            old(self).wf(),
        ensures
            final(self).wf(),
            (id as int) < final(self)@.len(),
            final(self)@[id as int] == name@,
            old(self)@.contains(name@) ==> final(self)@ == old(self)@,
            !old(self)@.contains(name@) ==> final(self)@ == old(self)@.push(name@) && id
                == old(self)@.len(),
    {
        let existing = self.id_of(name);
        match existing {
            Some(id) => {
                proof {
                    assert(old(self)@.contains(name@)) by {
                        assert(old(self)@[id as int] == name@);
                    }
                }
                id
            },
            None => {
                let id = self.names.len();
                let mut w: Vec<u8> = Vec::new();
                let mut t: usize = 0;
                while t < name.len()
                    invariant
                        t <= name@.len(),
                        w@ == name@.take(t as int),
                    decreases name@.len() - t,
                {
                    let b = name[t];
                    w.push(b);
                    proof {
                        assert(name@.take(t + 1) =~= name@.take(t as int).push(name@[t as int]));
                    }
                    t = t + 1;
                }
                proof {
                    assert(name@.take(name@.len() as int) =~= name@);
                }
                self.names.push(w);
                proof {
                    assert(self@ =~= old(self)@.push(name@));
                    assert(self.wf()) by {
                        assert forall|i: int, j: int| 0 <= i < j < self@.len() implies self@[i]
                            != self@[j] by {
                            if j == self@.len() - 1 {
                                assert(self@[j] == name@);
                                assert(self@[i] == old(self)@[i]);
                                if self@[i] == name@ {
                                    assert(old(self)@.contains(name@));
                                }
                            } else {
                                assert(old(self)@[i] != old(self)@[j]);
                            }
                        }
                    }
                }
                id
            },
        }
    }

    pub fn len(&self) -> (r: usize)
        ensures
            r == self@.len(),
    {
        self.names.len()
    }
}

/// Law: in a well-formed registry a name determines its id — two ids
/// carrying the same name are the same id.
pub proof fn lemma_field_id_unique(m: GlobalFieldsIdsMap, i: int, j: int)
    requires
        m.wf(),
        0 <= i < m@.len(),
        0 <= j < m@.len(),
        m@[i] == m@[j],
    ensures
        i == j,
{
}

} // verus!
