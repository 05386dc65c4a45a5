//! Streaming merge of sorted runs.
//!
//! All spill runs, whichever cache they came from, are merged into one
//! strictly sorted entry sequence; entries with equal keys have their
//! deltas combined, so every key appears exactly once in the output and
//! carries the combination of all its partial deltas.

use vstd::prelude::*;

use crate::cache::{
    entry_wf, lemma_run_delta_concat, lemma_run_delta_singleton, lemma_run_delta_take_snoc,
    lemma_runs_contains_snoc, lemma_runs_delta_snoc, lemma_run_contains_take_snoc,
    run_contains_key, run_delta_at, run_sorted, run_wf, runs_contain_key, runs_delta_at, runs_wf,
    CacheEntry, SortedRun,
};
use crate::delta::{combine_model, empty_delta, DeltaModel};
use crate::order::{key_compare, lex_lt, KeyOrder, lemma_lex_transitive};

verus! {

proof fn lemma_run_contains_push(s: Seq<CacheEntry>, e: CacheEntry, k: Seq<u8>)
    ensures
        run_contains_key(s.push(e), k) == (run_contains_key(s, k) || e.key@ == k),
{
    if run_contains_key(s.push(e), k) {
        let j = choose|j: int| 0 <= j < s.push(e).len() && s.push(e)[j].key@ == k;
        if j < s.len() {
            assert(s[j].key@ == k);
            assert(run_contains_key(s, k));
        } else {
            assert(s.push(e)[j] == e);
        }
    }
    if run_contains_key(s, k) {
        let j = choose|j: int| 0 <= j < s.len() && s[j].key@ == k;
        assert(s.push(e)[j].key@ == k);
        assert(run_contains_key(s.push(e), k));
    }
    if e.key@ == k {
        assert(s.push(e)[s.len() as int].key@ == k);
        assert(run_contains_key(s.push(e), k));
    }
}

proof fn lemma_run_delta_push(s: Seq<CacheEntry>, e: CacheEntry, k: Seq<u8>)
    ensures
        run_delta_at(s.push(e), k) == (if e.key@ == k {
            combine_model(run_delta_at(s, k), e.delta@)
        } else {
            run_delta_at(s, k)
        }),
{
    assert(s.push(e) =~= s + seq![e]);
    lemma_run_delta_concat(s, seq![e], k);
    lemma_run_delta_singleton(e, k);
    crate::delta::lemma_combine_empty(run_delta_at(s, k));
}

proof fn lemma_push_entry_sorted(s: Seq<CacheEntry>, e: CacheEntry)
    requires
        run_sorted(s),
        s.len() > 0 ==> lex_lt(s.last().key@, e.key@),
    ensures
        run_sorted(s.push(e)),
{
    assert forall|i: int, j: int| 0 <= i < j < s.push(e).len() implies lex_lt(
        s.push(e)[i].key@,
        s.push(e)[j].key@,
    ) by {
        if j < s.len() {
            assert(lex_lt(s[i].key@, s[j].key@));
        } else {
            assert(s.push(e)[j] == e);
            if i < s.len() - 1 {
                assert(lex_lt(s[i].key@, s.last().key@));
                lemma_lex_transitive(s[i].key@, s.last().key@, e.key@);
            }
        }
    }
}

/// Merges two sorted runs, combining the deltas of equal keys.
pub fn merge_two(a: SortedRun, b: SortedRun) -> (out: SortedRun)
    requires
        run_wf(a.entries@),
        run_wf(b.entries@),
    ensures
        run_wf(out.entries@),
        forall|k: Seq<u8>|
            run_contains_key(out.entries@, k) == (run_contains_key(a.entries@, k)
                || run_contains_key(b.entries@, k)),
        forall|k: Seq<u8>|
            run_delta_at(out.entries@, k) == combine_model(
                run_delta_at(a.entries@, k),
                run_delta_at(b.entries@, k),
            ),
{
    let ghost a0 = a.entries@;
    let ghost b0 = b.entries@;
    let mut a_rem = a.entries;
    let mut b_rem = b.entries;
    let ghost mut ai: int = 0;
    let ghost mut bj: int = 0;
    let mut out_entries: Vec<CacheEntry> = Vec::new();
    proof {
        assert(a_rem@ =~= a0.skip(0));
        assert(b_rem@ =~= b0.skip(0));
        assert(a0.take(0) =~= Seq::<CacheEntry>::empty());
        assert(run_delta_at(Seq::<CacheEntry>::empty(), Seq::<u8>::empty()) == empty_delta());
    }
    while a_rem.len() > 0 || b_rem.len() > 0
        invariant
            0 <= ai <= a0.len(),
            0 <= bj <= b0.len(),
            a_rem@ == a0.skip(ai),
            b_rem@ == b0.skip(bj),
            run_wf(a0),
            run_wf(b0),
            run_wf(out_entries@),
            forall|k: Seq<u8>|
                #[trigger] run_delta_at(out_entries@, k) == combine_model(
                    run_delta_at(a0.take(ai), k),
                    run_delta_at(b0.take(bj), k),
                ),
            forall|k: Seq<u8>|
                #[trigger] run_contains_key(out_entries@, k) == (run_contains_key(
                    a0.take(ai),
                    k,
                ) || run_contains_key(b0.take(bj), k)),
            out_entries@.len() > 0 ==> forall|m: int|
                ai <= m < a0.len() ==> lex_lt(out_entries@.last().key@, (#[trigger] a0[m]).key@),
            out_entries@.len() > 0 ==> forall|m: int|
                bj <= m < b0.len() ==> lex_lt(out_entries@.last().key@, (#[trigger] b0[m]).key@),
        decreases a_rem@.len() + b_rem@.len(),
    {
        let mut from_a = false;
        let mut from_b = false;
        if a_rem.len() == 0 {
            from_b = true;
        } else if b_rem.len() == 0 {
            from_a = true;
        } else {
            let ord = key_compare(&a_rem[0].key, &b_rem[0].key);
            match ord {
                KeyOrder::Less => {
                    from_a = true;
                },
                KeyOrder::Greater => {
                    from_b = true;
                },
                KeyOrder::Equal => {
                    from_a = true;
                    from_b = true;
                },
            }
        }
        proof {
            if ai < a0.len() {
                assert(a_rem@[0] == a0[ai]);
            }
            if bj < b0.len() {
                assert(b_rem@[0] == b0[bj]);
            }
        }
        if from_a && from_b {
            let ea = a_rem.remove(0);
            let eb = b_rem.remove(0);
            proof {
                assert(ea == a0[ai]);
                assert(eb == b0[bj]);
                assert(entry_wf(a0[ai]));
                assert(entry_wf(b0[bj]));
            }
            let d = ea.delta.combine_with(&eb.delta);
            let e = CacheEntry { key: ea.key, delta: d };
            proof {
                lemma_push_entry_sorted(out_entries@, e);
            }
            let ghost out_before = out_entries@;
            out_entries.push(e);
            proof {
                assert(a_rem@ =~= a0.skip(ai + 1));
                assert(b_rem@ =~= b0.skip(bj + 1));
                assert forall|k: Seq<u8>|
                    #[trigger] run_delta_at(out_entries@, k) == combine_model(
                        run_delta_at(a0.take(ai + 1), k),
                        run_delta_at(b0.take(bj + 1), k),
                    ) by {
                    lemma_run_delta_push(out_before, e, k);
                    lemma_run_delta_take_snoc(a0, ai, k);
                    lemma_run_delta_take_snoc(b0, bj, k);
                    assert(run_delta_at(out_entries@, k) =~= combine_model(
                        run_delta_at(a0.take(ai + 1), k),
                        run_delta_at(b0.take(bj + 1), k),
                    ));
                }
                assert forall|k: Seq<u8>|
                    #[trigger] run_contains_key(out_entries@, k) == (run_contains_key(
                        a0.take(ai + 1),
                        k,
                    ) || run_contains_key(b0.take(bj + 1), k)) by {
                    lemma_run_contains_push(out_before, e, k);
                    lemma_run_contains_take_snoc(a0, ai, k);
                    lemma_run_contains_take_snoc(b0, bj, k);
                }
                assert forall|m: int| ai + 1 <= m < a0.len() implies lex_lt(
                    out_entries@.last().key@,
                    (#[trigger] a0[m]).key@,
                ) by {
                    assert(lex_lt(a0[ai].key@, a0[m].key@));
                }
                assert forall|m: int| bj + 1 <= m < b0.len() implies lex_lt(
                    out_entries@.last().key@,
                    (#[trigger] b0[m]).key@,
                ) by {
                    assert(lex_lt(b0[bj].key@, b0[m].key@));
                }
                ai = ai + 1;
                bj = bj + 1;
            }
        } else if from_a {
            let ea = a_rem.remove(0);
            proof {
                assert(ea == a0[ai]);
                assert(entry_wf(a0[ai]));
                lemma_push_entry_sorted(out_entries@, ea);
            }
            let ghost out_before = out_entries@;
            let ghost ghost_ea = ea;
            out_entries.push(ea);
            proof {
                assert(a_rem@ =~= a0.skip(ai + 1));
                assert forall|k: Seq<u8>|
                    #[trigger] run_delta_at(out_entries@, k) == combine_model(
                        run_delta_at(a0.take(ai + 1), k),
                        run_delta_at(b0.take(bj), k),
                    ) by {
                    lemma_run_delta_push(out_before, ghost_ea, k);
                    lemma_run_delta_take_snoc(a0, ai, k);
                    assert(run_delta_at(out_entries@, k) =~= combine_model(
                        run_delta_at(a0.take(ai + 1), k),
                        run_delta_at(b0.take(bj), k),
                    ));
                }
                assert forall|k: Seq<u8>|
                    #[trigger] run_contains_key(out_entries@, k) == (run_contains_key(
                        a0.take(ai + 1),
                        k,
                    ) || run_contains_key(b0.take(bj), k)) by {
                    lemma_run_contains_push(out_before, ghost_ea, k);
                    lemma_run_contains_take_snoc(a0, ai, k);
                }
                assert forall|m: int| ai + 1 <= m < a0.len() implies lex_lt(
                    out_entries@.last().key@,
                    (#[trigger] a0[m]).key@,
                ) by {
                    assert(lex_lt(a0[ai].key@, a0[m].key@));
                }
                assert forall|m: int| bj <= m < b0.len() implies lex_lt(
                    out_entries@.last().key@,
                    (#[trigger] b0[m]).key@,
                ) by {
                    assert(lex_lt(a0[ai].key@, b0[bj].key@));
                    if m > bj {
                        assert(lex_lt(b0[bj].key@, b0[m].key@));
                        lemma_lex_transitive(a0[ai].key@, b0[bj].key@, b0[m].key@);
                    }
                }
                ai = ai + 1;
            }
        } else {
            let eb = b_rem.remove(0);
            proof {
                assert(eb == b0[bj]);
                assert(entry_wf(b0[bj]));
                lemma_push_entry_sorted(out_entries@, eb);
            }
            let ghost out_before = out_entries@;
            let ghost ghost_eb = eb;
            out_entries.push(eb);
            proof {
                assert(b_rem@ =~= b0.skip(bj + 1));
                assert forall|k: Seq<u8>|
                    #[trigger] run_delta_at(out_entries@, k) == combine_model(
                        run_delta_at(a0.take(ai), k),
                        run_delta_at(b0.take(bj + 1), k),
                    ) by {
                    lemma_run_delta_push(out_before, ghost_eb, k);
                    lemma_run_delta_take_snoc(b0, bj, k);
                    assert(run_delta_at(out_entries@, k) =~= combine_model(
                        run_delta_at(a0.take(ai), k),
                        run_delta_at(b0.take(bj + 1), k),
                    ));
                }
                assert forall|k: Seq<u8>|
                    #[trigger] run_contains_key(out_entries@, k) == (run_contains_key(
                        a0.take(ai),
                        k,
                    ) || run_contains_key(b0.take(bj + 1), k)) by {
                    lemma_run_contains_push(out_before, ghost_eb, k);
                    lemma_run_contains_take_snoc(b0, bj, k);
                }
                assert forall|m: int| bj + 1 <= m < b0.len() implies lex_lt(
                    out_entries@.last().key@,
                    (#[trigger] b0[m]).key@,
                ) by {
                    assert(lex_lt(b0[bj].key@, b0[m].key@));
                }
                assert forall|m: int| ai <= m < a0.len() implies lex_lt(
                    out_entries@.last().key@,
                    (#[trigger] a0[m]).key@,
                ) by {
                    if ai < a0.len() {
                        assert(lex_lt(b0[bj].key@, a0[ai].key@));
                        if m > ai {
                            assert(lex_lt(a0[ai].key@, a0[m].key@));
                            lemma_lex_transitive(b0[bj].key@, a0[ai].key@, a0[m].key@);
                        }
                    }
                }
                bj = bj + 1;
            }
        }
    }
    proof {
        assert(ai == a0.len());
        assert(bj == b0.len());
        assert(a0.take(ai) =~= a0);
        assert(b0.take(bj) =~= b0);
    }
    SortedRun { entries: out_entries }
}

/// Merges every spill run of a whole extraction into one sorted,
/// delta-resolved entry sequence: the final merge stage.
pub fn merge_runs(runs: Vec<SortedRun>) -> (out: SortedRun)
    requires
        runs_wf(runs@),
    ensures
        run_wf(out.entries@),
        forall|k: Seq<u8>| run_delta_at(out.entries@, k) == runs_delta_at(runs@, k),
        forall|k: Seq<u8>| run_contains_key(out.entries@, k) == runs_contain_key(runs@, k),
{
    let ghost rs0 = runs@;
    let mut rem = runs;
    let mut acc = SortedRun { entries: Vec::new() };
    let ghost mut i: int = 0;
    proof {
        assert(rem@ =~= rs0.skip(0));
        assert(rs0.take(0) =~= Seq::<SortedRun>::empty());
    }
    while rem.len() > 0
        invariant
            0 <= i <= rs0.len(),
            rem@ == rs0.skip(i),
            runs_wf(rs0),
            run_wf(acc.entries@),
            forall|k: Seq<u8>|
                #[trigger] run_delta_at(acc.entries@, k) == runs_delta_at(rs0.take(i), k),
            forall|k: Seq<u8>|
                #[trigger] run_contains_key(acc.entries@, k) == runs_contain_key(rs0.take(i), k),
        decreases rem@.len(),
    {
        let r = rem.remove(0);
        proof {
            assert(r == rs0[i]);
            assert(run_wf(rs0[i].entries@));
        }
        let ghost acc_before = acc.entries@;
        let ghost ghost_r = r;
        acc = merge_two(acc, r);
        proof {
            assert(rem@ =~= rs0.skip(i + 1));
            assert(rs0.take(i + 1) =~= rs0.take(i).push(rs0[i]));
            assert forall|k: Seq<u8>|
                #[trigger] run_delta_at(acc.entries@, k) == runs_delta_at(rs0.take(i + 1), k) by {
                lemma_runs_delta_snoc(rs0.take(i), rs0[i], k);
                assert(run_delta_at(acc.entries@, k) == combine_model(
                    run_delta_at(acc_before, k),
                    run_delta_at(ghost_r.entries@, k),
                ));
            }
            assert forall|k: Seq<u8>|
                #[trigger] run_contains_key(acc.entries@, k) == runs_contain_key(
                    rs0.take(i + 1),
                    k,
                ) by {
                lemma_runs_contains_snoc(rs0.take(i), rs0[i], k);
            }
            i = i + 1;
        }
    }
    proof {
        assert(i == rs0.len());
        assert(rs0.take(i) =~= rs0);
    }
    acc
}

} // verus!
