//! Bounded per-worker delta cache and sorted spill runs.
//!
//! A `BoundedDeltaCache` accumulates key -> delta entries in a sorted
//! in-memory vector.  When the entry budget is exceeded the in-memory
//! contents are moved, already sorted, into a spill run; `finalize`
//! flushes the remainder and hands all runs to the merge stage.  The
//! cache is summarized per key by `delta_of`, which every mutation
//! updates pointwise, so spilling never changes what the cache means.

use vstd::prelude::*;

use crate::delta::{combine_model, empty_delta, Delta, DeltaModel};
use crate::delta::{lemma_combine_associative, lemma_combine_commutative, lemma_combine_empty};
use crate::order::{key_compare, lex_lt, KeyOrder};
use crate::order::{lemma_lex_asymmetric, lemma_lex_transitive};

verus! {

/// One key -> delta pair of a cache or of a sorted run.
#[derive(Debug)]
pub struct CacheEntry {
    pub key: Vec<u8>,
    pub delta: Delta,
}

pub open spec fn entry_wf(e: CacheEntry) -> bool {
    e.delta.wf()
}

/// Entries in strictly ascending key order.
pub open spec fn run_sorted(s: Seq<CacheEntry>) -> bool {
    forall|i: int, j: int| 0 <= i < j < s.len() ==> lex_lt(s[i].key@, s[j].key@)
}

pub open spec fn run_wf(s: Seq<CacheEntry>) -> bool {
    run_sorted(s) && (forall|i: int| 0 <= i < s.len() ==> entry_wf(#[trigger] s[i]))
}

pub open spec fn run_contains_key(s: Seq<CacheEntry>, k: Seq<u8>) -> bool {
    exists|i: int| 0 <= i < s.len() && s[i].key@ == k
}

/// The combined delta that a sequence of entries holds for key `k`.
pub open spec fn run_delta_at(s: Seq<CacheEntry>, k: Seq<u8>) -> DeltaModel
    decreases s.len(),
{
    if s.len() == 0 {
        empty_delta()
    } else if s[0].key@ == k {
        combine_model(s[0].delta@, run_delta_at(s.drop_first(), k))
    } else {
        run_delta_at(s.drop_first(), k)
    }
}

pub proof fn lemma_run_delta_concat(a: Seq<CacheEntry>, b: Seq<CacheEntry>, k: Seq<u8>)
    ensures
        run_delta_at(a + b, k) == combine_model(run_delta_at(a, k), run_delta_at(b, k)),
    decreases a.len(),
{
    if a.len() == 0 {
        assert(a + b =~= b);
        lemma_combine_empty(run_delta_at(b, k));
    } else {
        assert((a + b).drop_first() =~= a.drop_first() + b);
        assert((a + b)[0] == a[0]);
        lemma_run_delta_concat(a.drop_first(), b, k);
        if a[0].key@ == k {
            lemma_combine_associative(
                a[0].delta@,
                run_delta_at(a.drop_first(), k),
                run_delta_at(b, k),
            );
        }
    }
}

pub proof fn lemma_run_delta_singleton(e: CacheEntry, k: Seq<u8>)
    ensures
        run_delta_at(seq![e], k) == (if e.key@ == k {
            e.delta@
        } else {
            empty_delta()
        }),
{
    assert(seq![e].len() == 1);
    assert(seq![e][0] == e);
    assert(seq![e].drop_first() =~= Seq::<CacheEntry>::empty());
    assert(run_delta_at(Seq::<CacheEntry>::empty(), k) == empty_delta());
    if e.key@ == k {
        lemma_combine_empty(e.delta@);
    }
}

pub proof fn lemma_run_delta_absent(s: Seq<CacheEntry>, k: Seq<u8>)
    requires
        !run_contains_key(s, k),
    ensures
        run_delta_at(s, k) == empty_delta(),
    decreases s.len(),
{
    if s.len() > 0 {
        assert(s[0].key@ != k);
        assert(!run_contains_key(s.drop_first(), k)) by {
            if run_contains_key(s.drop_first(), k) {
                let i = choose|i: int|
                    0 <= i < s.drop_first().len() && s.drop_first()[i].key@ == k;
                assert(s[i + 1].key@ == k);
            }
        }
        lemma_run_delta_absent(s.drop_first(), k);
    }
}

pub proof fn lemma_run_delta_take_snoc(s: Seq<CacheEntry>, i: int, k: Seq<u8>)
    requires
        0 <= i < s.len(),
    ensures
        run_delta_at(s.take(i + 1), k) == (if s[i].key@ == k {
            combine_model(run_delta_at(s.take(i), k), s[i].delta@)
        } else {
            run_delta_at(s.take(i), k)
        }),
{
    assert(s.take(i + 1) =~= s.take(i) + seq![s[i]]);
    lemma_run_delta_concat(s.take(i), seq![s[i]], k);
    lemma_run_delta_singleton(s[i], k);
    lemma_combine_empty(run_delta_at(s.take(i), k));
}

pub proof fn lemma_run_contains_take_snoc(s: Seq<CacheEntry>, i: int, k: Seq<u8>)
    requires
        0 <= i < s.len(),
    ensures
        run_contains_key(s.take(i + 1), k) == (run_contains_key(s.take(i), k) || s[i].key@ == k),
{
    if run_contains_key(s.take(i + 1), k) {
        let j = choose|j: int| 0 <= j < s.take(i + 1).len() && (#[trigger] s.take(i + 1)[j]).key@
            == k;
        if j < i {
            assert(s.take(i)[j].key@ == k);
            assert(run_contains_key(s.take(i), k));
        } else {
            assert(s.take(i + 1)[i] == s[i]);
        }
    }
    if run_contains_key(s.take(i), k) {
        let j = choose|j: int| 0 <= j < s.take(i).len() && s.take(i)[j].key@ == k;
        assert(s.take(i + 1)[j].key@ == k);
        assert(run_contains_key(s.take(i + 1), k));
    }
    if s[i].key@ == k {
        assert(s.take(i + 1)[i].key@ == k);
        assert(run_contains_key(s.take(i + 1), k));
    }
}

/// A sorted spill run: what one overflow or one final flush wrote out.
#[derive(Debug)]
pub struct SortedRun {
    pub entries: Vec<CacheEntry>,
}

pub open spec fn runs_wf(rs: Seq<SortedRun>) -> bool {
    forall|i: int| 0 <= i < rs.len() ==> run_wf((#[trigger] rs[i]).entries@)
}

pub open spec fn runs_contain_key(rs: Seq<SortedRun>, k: Seq<u8>) -> bool {
    exists|i: int| 0 <= i < rs.len() && run_contains_key((#[trigger] rs[i]).entries@, k)
}

/// The combined delta that a collection of runs holds for key `k`.
pub open spec fn runs_delta_at(rs: Seq<SortedRun>, k: Seq<u8>) -> DeltaModel
    decreases rs.len(),
{
    if rs.len() == 0 {
        empty_delta()
    } else {
        combine_model(run_delta_at(rs[0].entries@, k), runs_delta_at(rs.drop_first(), k))
    }
}

pub proof fn lemma_runs_delta_snoc(rs: Seq<SortedRun>, r: SortedRun, k: Seq<u8>)
    ensures
        runs_delta_at(rs.push(r), k) == combine_model(
            runs_delta_at(rs, k),
            run_delta_at(r.entries@, k),
        ),
    decreases rs.len(),
{
    if rs.len() == 0 {
        assert(rs.push(r).len() == 1);
        assert(rs.push(r).drop_first() =~= Seq::<SortedRun>::empty());
        assert(rs.push(r)[0] == r);
        assert(runs_delta_at(Seq::<SortedRun>::empty(), k) == empty_delta());
        assert(runs_delta_at(rs, k) == empty_delta());
        lemma_combine_empty(run_delta_at(r.entries@, k));
    } else {
        assert(rs.push(r).drop_first() =~= rs.drop_first().push(r));
        assert(rs.push(r)[0] == rs[0]);
        lemma_runs_delta_snoc(rs.drop_first(), r, k);
        lemma_combine_associative(
            run_delta_at(rs[0].entries@, k),
            runs_delta_at(rs.drop_first(), k),
            run_delta_at(r.entries@, k),
        );
    }
}

pub proof fn lemma_runs_contains_snoc(rs: Seq<SortedRun>, r: SortedRun, k: Seq<u8>)
    ensures
        runs_contain_key(rs.push(r), k) == (runs_contain_key(rs, k) || run_contains_key(
            r.entries@,
            k,
        )),
{
    if runs_contain_key(rs.push(r), k) {
        let i = choose|i: int|
            0 <= i < rs.push(r).len() && run_contains_key(rs.push(r)[i].entries@, k);
        if i < rs.len() {
            assert(rs.push(r)[i] == rs[i]);
            assert(runs_contain_key(rs, k));
        } else {
            assert(rs.push(r)[i] == r);
        }
    }
    if runs_contain_key(rs, k) {
        let i = choose|i: int| 0 <= i < rs.len() && run_contains_key(rs[i].entries@, k);
        assert(rs.push(r)[i] == rs[i]);
        assert(runs_contain_key(rs.push(r), k));
    }
    if run_contains_key(r.entries@, k) {
        assert(rs.push(r)[rs.len() as int] == r);
        assert(runs_contain_key(rs.push(r), k));
    }
}

/// Replacing the entry at `p` by one with the same key: only that key's
/// delta moves.
proof fn lemma_update_entry(m0: Seq<CacheEntry>, p: int, e: CacheEntry, key: Seq<u8>)
    requires
        0 <= p < m0.len(),
        run_wf(m0),
        m0[p].key@ == key,
        e.key@ == key,
        entry_wf(e),
    ensures
        run_wf(m0.update(p, e)),
        forall|k: Seq<u8>|
            run_contains_key(m0.update(p, e), k) == run_contains_key(m0, k),
        forall|k: Seq<u8>|
            k != key ==> run_delta_at(m0.update(p, e), k) == run_delta_at(m0, k),
        run_delta_at(m0.update(p, e), key) == combine_model(
            run_delta_at(m0.take(p), key),
            combine_model(e.delta@, run_delta_at(m0.skip(p + 1), key)),
        ),
        run_delta_at(m0, key) == combine_model(
            run_delta_at(m0.take(p), key),
            combine_model(m0[p].delta@, run_delta_at(m0.skip(p + 1), key)),
        ),
{
    let m1 = m0.update(p, e);
    assert(run_wf(m1)) by {
        assert forall|i: int, j: int| 0 <= i < j < m1.len() implies lex_lt(
            m1[i].key@,
            m1[j].key@,
        ) by {
            assert(lex_lt(m0[i].key@, m0[j].key@));
        }
        assert forall|i: int| 0 <= i < m1.len() implies entry_wf(#[trigger] m1[i]) by {
            if i != p {
                assert(m1[i] == m0[i]);
            }
        }
    }
    assert forall|k: Seq<u8>| run_contains_key(m1, k) == run_contains_key(m0, k) by {
        if run_contains_key(m1, k) {
            let i = choose|i: int| 0 <= i < m1.len() && m1[i].key@ == k;
            assert(m0[i].key@ == k);
            assert(run_contains_key(m0, k));
        }
        if run_contains_key(m0, k) {
            let i = choose|i: int| 0 <= i < m0.len() && m0[i].key@ == k;
            assert(m1[i].key@ == k);
            assert(run_contains_key(m1, k));
        }
    }
    assert(m0 =~= m0.take(p) + seq![m0[p]] + m0.skip(p + 1));
    assert(m1 =~= m0.take(p) + seq![e] + m0.skip(p + 1));
    assert forall|k: Seq<u8>| true implies (#[trigger] run_delta_at(m1, k)) == combine_model(
        run_delta_at(m0.take(p), k),
        combine_model(
            if k == key {
                e.delta@
            } else {
                empty_delta()
            },
            run_delta_at(m0.skip(p + 1), k),
        ),
    ) && run_delta_at(m0, k) == combine_model(
        run_delta_at(m0.take(p), k),
        combine_model(
            if k == key {
                m0[p].delta@
            } else {
                empty_delta()
            },
            run_delta_at(m0.skip(p + 1), k),
        ),
    ) by {
        lemma_run_delta_concat(m0.take(p) + seq![e], m0.skip(p + 1), k);
        lemma_run_delta_concat(m0.take(p), seq![e], k);
        lemma_run_delta_concat(m0.take(p) + seq![m0[p]], m0.skip(p + 1), k);
        lemma_run_delta_concat(m0.take(p), seq![m0[p]], k);
        lemma_run_delta_singleton(e, k);
        lemma_run_delta_singleton(m0[p], k);
        lemma_combine_associative(
            run_delta_at(m0.take(p), k),
            if k == key {
                e.delta@
            } else {
                empty_delta()
            },
            run_delta_at(m0.skip(p + 1), k),
        );
        lemma_combine_associative(
            run_delta_at(m0.take(p), k),
            if k == key {
                m0[p].delta@
            } else {
                empty_delta()
            },
            run_delta_at(m0.skip(p + 1), k),
        );
    }
    assert forall|k: Seq<u8>| k != key implies run_delta_at(m1, k) == run_delta_at(m0, k) by {
        lemma_combine_empty(run_delta_at(m0.skip(p + 1), k));
    }
}

/// Inserting a fresh entry whose key was absent: the new key holds the
/// new delta alone; other keys move nothing.
proof fn lemma_insert_entry(m0: Seq<CacheEntry>, p: int, e: CacheEntry, key: Seq<u8>)
    requires
        0 <= p <= m0.len(),
        run_wf(m0),
        e.key@ == key,
        entry_wf(e),
        !run_contains_key(m0, key),
        forall|j: int| 0 <= j < p ==> lex_lt(m0[j].key@, key),
        p < m0.len() ==> lex_lt(key, m0[p].key@),
    ensures
        run_wf(m0.take(p) + seq![e] + m0.skip(p)),
        forall|k: Seq<u8>|
            run_contains_key(m0.take(p) + seq![e] + m0.skip(p), k) == (run_contains_key(m0, k)
                || k == key),
        forall|k: Seq<u8>|
            k != key ==> run_delta_at(m0.take(p) + seq![e] + m0.skip(p), k) == run_delta_at(
                m0,
                k,
            ),
        run_delta_at(m0.take(p) + seq![e] + m0.skip(p), key) == e.delta@,
{
    let m1 = m0.take(p) + seq![e] + m0.skip(p);
    assert(m1.len() == m0.len() + 1);
    assert forall|j: int| 0 <= j < m1.len() implies m1[j] == (if j < p {
        m0[j]
    } else if j == p {
        e
    } else {
        m0[j - 1]
    }) by {}
    assert(run_wf(m1)) by {
        assert forall|i: int, j: int| 0 <= i < j < m1.len() implies lex_lt(
            m1[i].key@,
            m1[j].key@,
        ) by {
            if i < p && j < p {
                assert(lex_lt(m0[i].key@, m0[j].key@));
            } else if i < p && j == p {
                assert(lex_lt(m0[i].key@, key));
            } else if i < p && j > p {
                assert(lex_lt(m0[i].key@, m0[j - 1].key@));
            } else if i == p && j > p {
                assert(lex_lt(key, m0[p].key@));
                if j - 1 > p {
                    lemma_lex_transitive(key, m0[p].key@, m0[j - 1].key@);
                }
            } else {
                assert(lex_lt(m0[i - 1].key@, m0[j - 1].key@));
            }
        }
        assert forall|i: int| 0 <= i < m1.len() implies entry_wf(#[trigger] m1[i]) by {}
    }
    assert forall|k: Seq<u8>| run_contains_key(m1, k) == (run_contains_key(m0, k) || k
        == key) by {
        if run_contains_key(m1, k) {
            let i = choose|i: int| 0 <= i < m1.len() && m1[i].key@ == k;
            if i < p {
                assert(m0[i].key@ == k);
                assert(run_contains_key(m0, k));
            } else if i > p {
                assert(m0[i - 1].key@ == k);
                assert(run_contains_key(m0, k));
            }
        }
        if run_contains_key(m0, k) {
            let i = choose|i: int| 0 <= i < m0.len() && m0[i].key@ == k;
            if i < p {
                assert(m1[i].key@ == k);
            } else {
                assert(m1[i + 1].key@ == k);
            }
            assert(run_contains_key(m1, k));
        }
        if k == key {
            assert(m1[p].key@ == k);
            assert(run_contains_key(m1, k));
        }
    }
    assert(m0 =~= m0.take(p) + m0.skip(p));
    assert forall|k: Seq<u8>| true implies (#[trigger] run_delta_at(m1, k)) == (if k == key {
        combine_model(e.delta@, run_delta_at(m0, k))
    } else {
        run_delta_at(m0, k)
    }) by {
        lemma_run_delta_concat(m0.take(p) + seq![e], m0.skip(p), k);
        lemma_run_delta_concat(m0.take(p), seq![e], k);
        lemma_run_delta_concat(m0.take(p), m0.skip(p), k);
        lemma_run_delta_singleton(e, k);
        if k == key {
            lemma_combine_associative(
                run_delta_at(m0.take(p), k),
                e.delta@,
                run_delta_at(m0.skip(p), k),
            );
            lemma_combine_commutative(run_delta_at(m0.take(p), k), e.delta@);
            lemma_combine_associative(
                e.delta@,
                run_delta_at(m0.take(p), k),
                run_delta_at(m0.skip(p), k),
            );
        } else {
            lemma_combine_empty(run_delta_at(m0.take(p), k));
        }
    }
    lemma_run_delta_absent(m0, key);
    lemma_combine_empty(e.delta@);
}

/// In-memory delta map bounded by an entry budget, spilling sorted runs.
pub struct BoundedDeltaCache {
    mem: Vec<CacheEntry>,
    spilled: Vec<SortedRun>,
    budget: usize,
}

impl BoundedDeltaCache {
    pub closed spec fn wf(self) -> bool {
        run_wf(self.mem@) && runs_wf(self.spilled@) && self.budget >= 1
    }

    /// The accumulated delta this cache holds for key `k`, in-memory and
    /// spilled parts combined.
    pub closed spec fn delta_of(self, k: Seq<u8>) -> DeltaModel {
        combine_model(run_delta_at(self.mem@, k), runs_delta_at(self.spilled@, k))
    }

    pub closed spec fn tracks_key(self, k: Seq<u8>) -> bool {
        run_contains_key(self.mem@, k) || runs_contain_key(self.spilled@, k)
    }

    /// A fresh cache that may hold at most `budget` in-memory entries
    /// before it spills.
    pub fn new(budget: usize) -> (r: Self)
        requires
            budget >= 1,
        ensures
            r.wf(),
            forall|k: Seq<u8>| r.delta_of(k) == empty_delta(),
            forall|k: Seq<u8>| !r.tracks_key(k),
    {
        let r = BoundedDeltaCache { mem: Vec::new(), spilled: Vec::new(), budget };
        proof {
            assert forall|k: Seq<u8>| r.delta_of(k) == empty_delta() by {
                lemma_combine_empty(empty_delta());
            }
        }
        r
    }

    /// Records that document `docid` gains the posting `key`.
    pub fn insert_add(&mut self, key: Vec<u8>, docid: u32)
        requires
            old(self).wf(),
        ensures
            final(self).wf(),
            forall|k: Seq<u8>|
                final(self).tracks_key(k) == (old(self).tracks_key(k) || k == key@),
            forall|k: Seq<u8>|
                k != key@ ==> final(self).delta_of(k) == old(self).delta_of(k),
            final(self).delta_of(key@) == (DeltaModel {
                del: old(self).delta_of(key@).del,
                add: old(self).delta_of(key@).add.insert(docid),
            }),
    {
        self.upsert(key, docid, true);
    }

    /// Records that document `docid` loses the posting `key`.
    pub fn insert_remove(&mut self, key: Vec<u8>, docid: u32)
        requires
            old(self).wf(),
        ensures
            final(self).wf(),
            forall|k: Seq<u8>|
                final(self).tracks_key(k) == (old(self).tracks_key(k) || k == key@),
            forall|k: Seq<u8>|
                k != key@ ==> final(self).delta_of(k) == old(self).delta_of(k),
            final(self).delta_of(key@) == (DeltaModel {
                del: old(self).delta_of(key@).del.insert(docid),
                add: old(self).delta_of(key@).add,
            }),
    {
        self.upsert(key, docid, false);
    }

    fn upsert(&mut self, key: Vec<u8>, docid: u32, is_add: bool)
        requires
            old(self).wf(),
        ensures
            final(self).wf(),
            forall|k: Seq<u8>|
                final(self).tracks_key(k) == (old(self).tracks_key(k) || k == key@),
            forall|k: Seq<u8>|
                k != key@ ==> final(self).delta_of(k) == old(self).delta_of(k),
            is_add ==> final(self).delta_of(key@) == (DeltaModel {
                del: old(self).delta_of(key@).del,
                add: old(self).delta_of(key@).add.insert(docid),
            }),
            !is_add ==> final(self).delta_of(key@) == (DeltaModel {
                del: old(self).delta_of(key@).del.insert(docid),
                add: old(self).delta_of(key@).add,
            }),
    {
        let ghost m0 = self.mem@;
        let ghost sp = self.spilled@;
        let ghost d0 = old(self).delta_of(key@);
        let (p, found) = find_slot(&self.mem, &key);
        if found {
            let mut e = self.mem.remove(p);
            let ghost e0 = e;
            if is_add {
                e.delta.add_doc(docid);
            } else {
                e.delta.remove_doc(docid);
            }
            self.mem.insert(p, e);
            proof {
                assert(self.mem@ =~= m0.update(p as int, e)) by {
                    assert(self.mem@ =~= m0.remove(p as int).insert(p as int, e));
                }
                lemma_update_entry(m0, p as int, e, key@);
                assert forall|k: Seq<u8>| k != key@ implies #[trigger] self.delta_of(k)
                    == old(self).delta_of(k) by {}
                assert(m0[p as int].key@ == key@);
                assert(run_contains_key(m0, key@));
                assert forall|k: Seq<u8>| #[trigger] self.tracks_key(k) == (old(
                    self,
                ).tracks_key(k) || k == key@) by {}
                if is_add {
                    assert(self.delta_of(key@) =~= (DeltaModel {
                        del: d0.del,
                        add: d0.add.insert(docid),
                    }));
                } else {
                    assert(self.delta_of(key@) =~= (DeltaModel {
                        del: d0.del.insert(docid),
                        add: d0.add,
                    }));
                }
            }
        } else {
            let e = CacheEntry {
                key,
                delta: if is_add {
                    Delta::added(docid)
                } else {
                    Delta::removed(docid)
                },
            };
            let ghost ekey = e.key@;
            self.mem.insert(p, e);
            proof {
                assert(self.mem@ =~= m0.take(p as int) + seq![e] + m0.skip(p as int));
                lemma_insert_entry(m0, p as int, e, ekey);
                assert forall|k: Seq<u8>| k != ekey implies #[trigger] self.delta_of(k)
                    == old(self).delta_of(k) by {}
                assert forall|k: Seq<u8>| #[trigger] self.tracks_key(k) == (old(
                    self,
                ).tracks_key(k) || k == ekey) by {}
                lemma_run_delta_absent(m0, ekey);
                if is_add {
                    assert(self.delta_of(ekey) =~= (DeltaModel {
                        del: d0.del,
                        add: d0.add.insert(docid),
                    }));
                } else {
                    assert(self.delta_of(ekey) =~= (DeltaModel {
                        del: d0.del.insert(docid),
                        add: d0.add,
                    }));
                }
            }
        }
        if self.mem.len() >= self.budget {
            self.spill();
        }
    }

    /// Moves the sorted in-memory entries into a new spill run.
    fn spill(&mut self)
        requires
            old(self).wf(),
        ensures
            final(self).wf(),
            forall|k: Seq<u8>| final(self).delta_of(k) == old(self).delta_of(k),
            forall|k: Seq<u8>| final(self).tracks_key(k) == old(self).tracks_key(k),
    {
        if self.mem.len() == 0 {
            return ;
        }
        let ghost m0 = self.mem@;
        let ghost sp0 = self.spilled@;
        let entries = self.mem.split_off(0);
        proof {
            assert(entries@ =~= m0);
            assert(self.mem@ =~= Seq::<CacheEntry>::empty());
        }
        let run = SortedRun { entries };
        self.spilled.push(run);
        proof {
            assert forall|k: Seq<u8>| #[trigger] self.delta_of(k) == old(self).delta_of(k) by {
                lemma_runs_delta_snoc(sp0, run, k);
                lemma_combine_empty(runs_delta_at(self.spilled@, k));
                lemma_combine_commutative(runs_delta_at(sp0, k), run_delta_at(m0, k));
            }
            assert forall|k: Seq<u8>| #[trigger] self.tracks_key(k) == old(self).tracks_key(
                k,
            ) by {
                lemma_runs_contains_snoc(sp0, run, k);
            }
            assert(runs_wf(self.spilled@)) by {
                assert forall|i: int| 0 <= i < self.spilled@.len() implies run_wf(
                    (#[trigger] self.spilled@[i]).entries@,
                ) by {
                    if i < sp0.len() {
                        assert(self.spilled@[i] == sp0[i]);
                    }
                }
            }
        }
    }

    /// Flushes the in-memory remainder and hands over every sorted run.
    pub fn finalize(self) -> (runs: Vec<SortedRun>)
        requires
            self.wf(),
        ensures
            runs_wf(runs@),
            forall|k: Seq<u8>| runs_delta_at(runs@, k) == self.delta_of(k),
            forall|k: Seq<u8>| runs_contain_key(runs@, k) == self.tracks_key(k),
    {
        let BoundedDeltaCache { mem, spilled, budget: _ } = self;
        let ghost m0 = mem@;
        let ghost sp0 = spilled@;
        let mut runs = spilled;
        if mem.len() > 0 {
            let run = SortedRun { entries: mem };
            runs.push(run);
            proof {
                assert forall|k: Seq<u8>| runs_delta_at(runs@, k) == self.delta_of(k) by {
                    lemma_runs_delta_snoc(sp0, run, k);
                    lemma_combine_commutative(runs_delta_at(sp0, k), run_delta_at(m0, k));
                }
                assert forall|k: Seq<u8>| runs_contain_key(runs@, k) == self.tracks_key(k) by {
                    lemma_runs_contains_snoc(sp0, run, k);
                }
                assert(runs_wf(runs@)) by {
                    assert forall|i: int| 0 <= i < runs@.len() implies run_wf(
                        (#[trigger] runs@[i]).entries@,
                    ) by {
                        if i < sp0.len() {
                            assert(runs@[i] == sp0[i]);
                        }
                    }
                }
            }
        } else {
            proof {
                assert forall|k: Seq<u8>| runs_delta_at(runs@, k) == self.delta_of(k) by {
                    lemma_combine_empty(runs_delta_at(sp0, k));
                }
                assert forall|k: Seq<u8>| runs_contain_key(runs@, k) == self.tracks_key(k) by {
                    if run_contains_key(m0, k) {
                        let i = choose|i: int| 0 <= i < m0.len() && m0[i].key@ == k;
                    }
                }
            }
        }
        runs
    }
}

/// Finds where `key` lives, or where it must be inserted, in a sorted
/// entry vector.
fn find_slot(mem: &Vec<CacheEntry>, key: &Vec<u8>) -> (r: (usize, bool))
    requires
        run_sorted(mem@),
    ensures
        r.0 <= mem@.len(),
        forall|j: int| 0 <= j < r.0 ==> lex_lt(mem@[j].key@, key@),
        r.1 ==> r.0 < mem@.len() && mem@[r.0 as int].key@ == key@,
        !r.1 ==> !run_contains_key(mem@, key@),
        !r.1 && r.0 < mem@.len() ==> lex_lt(key@, mem@[r.0 as int].key@),
{
    let mut p: usize = 0;
    while p < mem.len()
        invariant
            p <= mem@.len(),
            run_sorted(mem@),
            forall|j: int| 0 <= j < p ==> lex_lt(mem@[j].key@, key@),
        decreases mem@.len() - p,
    {
        let ord = key_compare(&mem[p].key, key);
        match ord {
            KeyOrder::Equal => {
                return (p, true);
            },
            KeyOrder::Greater => {
                proof {
                    assert(!run_contains_key(mem@, key@)) by {
                        if run_contains_key(mem@, key@) {
                            let j = choose|j: int| 0 <= j < mem@.len() && mem@[j].key@ == key@;
                            if j < p {
                                lemma_lex_asymmetric(mem@[j].key@, key@);
                            } else if j == p {
                                lemma_lex_asymmetric(key@, mem@[p as int].key@);
                            } else {
                                lemma_lex_transitive(key@, mem@[p as int].key@, mem@[j].key@);
                                lemma_lex_asymmetric(key@, mem@[j].key@);
                            }
                        }
                    }
                }
                return (p, false);
            },
            KeyOrder::Less => {
                p = p + 1;
            },
        }
    }
    proof {
        assert(!run_contains_key(mem@, key@)) by {
            if run_contains_key(mem@, key@) {
                let j = choose|j: int| 0 <= j < mem@.len() && mem@[j].key@ == key@;
                lemma_lex_asymmetric(mem@[j].key@, key@);
            }
        }
    }
    (p, false)
}

} // verus!
