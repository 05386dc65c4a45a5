//! The extraction run: fan-out over workers, error propagation, and the
//! merge stage.
//!
//! Each worker processes its own share of the change stream into its own
//! cache and registers the cache in the append-only collection; the
//! merge stage then finalizes every cache and merges all runs.  The
//! first error observed anywhere becomes the run's terminal error and no
//! merged stream is produced; partial cache contents are discarded
//! unread.

use vstd::prelude::*;

use crate::cache::{
    run_contains_key, run_delta_at, run_wf, runs_contain_key, runs_delta_at, runs_wf,
    BoundedDeltaCache, SortedRun,
};
use crate::collection::AppendOnlyCollection;
use crate::delta::{
    apply_model, combine_model, empty_delta, lemma_combine_associative,
    lemma_combine_commutative, lemma_combine_empty, DeltaModel,
};
use crate::extract::{
    docid_of, new_side, old_side, DocumentChange, ExtractConfig, IndexSnapshot, IndexingError,
    SearchableExtractor,
};
use crate::fields::GlobalFieldsIdsMap;
use crate::merge::merge_runs;
use crate::order::copy_bytes;

verus! {

/// The delta one change contributes to key `k`: a remove for the old
/// side, an add for the new side.
pub open spec fn change_delta<S: SearchableExtractor>(
    s: S,
    cfg: ExtractConfig,
    c: DocumentChange,
    k: Seq<u8>,
) -> DeltaModel {
    DeltaModel {
        del: if s.contributes(cfg, old_side(c), k) {
            Set::<u32>::empty().insert(docid_of(c))
        } else {
            Set::<u32>::empty()
        },
        add: if s.contributes(cfg, new_side(c), k) {
            Set::<u32>::empty().insert(docid_of(c))
        } else {
            Set::<u32>::empty()
        },
    }
}

/// Whether one change touches key `k` at all.
pub open spec fn change_tracks<S: SearchableExtractor>(
    s: S,
    cfg: ExtractConfig,
    c: DocumentChange,
    k: Seq<u8>,
) -> bool {
    s.contributes(cfg, old_side(c), k) || s.contributes(cfg, new_side(c), k)
}

/// The combined delta a sequence of changes contributes to key `k`.
pub open spec fn changes_delta<S: SearchableExtractor>(
    s: S,
    cfg: ExtractConfig,
    cs: Seq<DocumentChange>,
    k: Seq<u8>,
) -> DeltaModel
    decreases cs.len(),
{
    if cs.len() == 0 {
        empty_delta()
    } else {
        combine_model(
            changes_delta(s, cfg, cs.drop_last(), k),
            change_delta(s, cfg, cs.last(), k),
        )
    }
}

pub open spec fn changes_track<S: SearchableExtractor>(
    s: S,
    cfg: ExtractConfig,
    cs: Seq<DocumentChange>,
    k: Seq<u8>,
) -> bool
    decreases cs.len(),
{
    if cs.len() == 0 {
        false
    } else {
        changes_track(s, cfg, cs.drop_last(), k) || change_tracks(s, cfg, cs.last(), k)
    }
}

/// The successful payloads of a worker's item sequence.
pub open spec fn oks(items: Seq<Result<DocumentChange, IndexingError>>) -> Seq<DocumentChange> {
    items.map_values(|r: Result<DocumentChange, IndexingError>| r->Ok_0)
}

pub open spec fn all_items_ok(items: Seq<Result<DocumentChange, IndexingError>>) -> bool {
    forall|i: int| 0 <= i < items.len() ==> (#[trigger] items[i]) is Ok
}

pub open spec fn all_workers_ok(ws: Seq<Vec<Result<DocumentChange, IndexingError>>>) -> bool {
    forall|w: int| 0 <= w < ws.len() ==> all_items_ok((#[trigger] ws[w])@)
}

/// The combined delta of every worker's share, in worker order.
pub open spec fn workers_delta<S: SearchableExtractor>(
    s: S,
    cfg: ExtractConfig,
    ws: Seq<Vec<Result<DocumentChange, IndexingError>>>,
    k: Seq<u8>,
) -> DeltaModel
    decreases ws.len(),
{
    if ws.len() == 0 {
        empty_delta()
    } else {
        combine_model(
            workers_delta(s, cfg, ws.drop_last(), k),
            changes_delta(s, cfg, oks(ws.last()@), k),
        )
    }
}

pub open spec fn workers_track<S: SearchableExtractor>(
    s: S,
    cfg: ExtractConfig,
    ws: Seq<Vec<Result<DocumentChange, IndexingError>>>,
    k: Seq<u8>,
) -> bool
    decreases ws.len(),
{
    if ws.len() == 0 {
        false
    } else {
        workers_track(s, cfg, ws.drop_last(), k) || changes_track(s, cfg, oks(ws.last()@), k)
    }
}

/// The combined delta held by a sequence of registered caches.
pub open spec fn caches_delta(cs: Seq<BoundedDeltaCache>, k: Seq<u8>) -> DeltaModel
    decreases cs.len(),
{
    if cs.len() == 0 {
        empty_delta()
    } else {
        combine_model(caches_delta(cs.drop_last(), k), cs.last().delta_of(k))
    }
}

pub open spec fn caches_track(cs: Seq<BoundedDeltaCache>, k: Seq<u8>) -> bool
    decreases cs.len(),
{
    if cs.len() == 0 {
        false
    } else {
        caches_track(cs.drop_last(), k) || cs.last().tracks_key(k)
    }
}

proof fn lemma_runs_delta_concat(a: Seq<SortedRun>, b: Seq<SortedRun>, k: Seq<u8>)
    ensures
        runs_delta_at(a + b, k) == combine_model(runs_delta_at(a, k), runs_delta_at(b, k)),
    decreases a.len(),
{
    if a.len() == 0 {
        assert(a + b =~= b);
        lemma_combine_empty(runs_delta_at(b, k));
    } else {
        assert((a + b).drop_first() =~= a.drop_first() + b);
        assert((a + b)[0] == a[0]);
        lemma_runs_delta_concat(a.drop_first(), b, k);
        lemma_combine_associative(
            run_delta_at(a[0].entries@, k),
            runs_delta_at(a.drop_first(), k),
            runs_delta_at(b, k),
        );
    }
}

proof fn lemma_runs_contain_concat(a: Seq<SortedRun>, b: Seq<SortedRun>, k: Seq<u8>)
    ensures
        runs_contain_key(a + b, k) == (runs_contain_key(a, k) || runs_contain_key(b, k)),
{
    if runs_contain_key(a + b, k) {
        let i = choose|i: int|
            0 <= i < (a + b).len() && run_contains_key((#[trigger] (a + b)[i]).entries@, k);
        if i < a.len() {
            assert((a + b)[i] == a[i]);
            assert(runs_contain_key(a, k));
        } else {
            assert((a + b)[i] == b[i - a.len()]);
            assert(runs_contain_key(b, k));
        }
    }
    if runs_contain_key(a, k) {
        let i = choose|i: int|
            0 <= i < a.len() && run_contains_key((#[trigger] a[i]).entries@, k);
        assert((a + b)[i] == a[i]);
        assert(runs_contain_key(a + b, k));
    }
    if runs_contain_key(b, k) {
        let i = choose|i: int|
            0 <= i < b.len() && run_contains_key((#[trigger] b[i]).entries@, k);
        assert((a + b)[a.len() + i] == b[i]);
        assert(runs_contain_key(a + b, k));
    }
}

/// Processes one worker's share of the change stream into that worker's
/// cache, stopping at the first failed item.
pub fn process_worker_changes<S: SearchableExtractor>(
    strategy: &S,
    cfg: &ExtractConfig,
    fields_map: &mut GlobalFieldsIdsMap,
    cache: &mut BoundedDeltaCache,
    items: &Vec<Result<DocumentChange, IndexingError>>,
) -> (r: Result<(), IndexingError>)
    requires
        old(cache).wf(),
        old(fields_map).wf(),
    ensures
        final(cache).wf(),
        final(fields_map).wf(),
        (r is Ok <==> all_items_ok(items@)),
        r is Err ==> exists|i: int|
            0 <= i < items@.len() && #[trigger] items@[i] == Result::<
                DocumentChange,
                IndexingError,
            >::Err(r->Err_0) && (forall|j: int| 0 <= j < i ==> (#[trigger] items@[j]) is Ok),
        r is Ok ==> forall|k: Seq<u8>|
            #[trigger] final(cache).delta_of(k) == combine_model(
                old(cache).delta_of(k),
                changes_delta(*strategy, *cfg, oks(items@), k),
            ),
        r is Ok ==> forall|k: Seq<u8>|
            #[trigger] final(cache).tracks_key(k) == (old(cache).tracks_key(k) || changes_track(
                *strategy,
                *cfg,
                oks(items@),
                k,
            )),
{
    let ghost s = *strategy;
    let ghost cfg0 = *cfg;
    let ghost c0 = *old(cache);
    let mut i: usize = 0;
    while i < items.len()
        invariant
            i <= items@.len(),
            s == *strategy,
            cfg0 == *cfg,
            cache.wf(),
            fields_map.wf(),
            forall|j: int| 0 <= j < i ==> (#[trigger] items@[j]) is Ok,
            forall|k: Seq<u8>|
                #[trigger] cache.delta_of(k) == combine_model(
                    c0.delta_of(k),
                    changes_delta(s, cfg0, oks(items@).take(i as int), k),
                ),
            forall|k: Seq<u8>|
                #[trigger] cache.tracks_key(k) == (c0.tracks_key(k) || changes_track(
                    s,
                    cfg0,
                    oks(items@).take(i as int),
                    k,
                )),
        decreases items@.len() - i,
    {
        match &items[i] {
            Result::Err(e) => {
                proof {
                    assert(items@[i as int] == Result::<DocumentChange, IndexingError>::Err(*e));
                    assert(!all_items_ok(items@));
                }
                return Result::Err(*e);
            },
            Result::Ok(c) => {
                let ghost pre = *cache;
                let _extract_ok = strategy.extract_document_change(cfg, fields_map, cache, c);
                proof {
                    let done = oks(items@).take(i as int);
                    let done1 = oks(items@).take(i + 1);
                    assert(done1.drop_last() =~= done);
                    assert(done1.last() == oks(items@)[i as int]);
                    assert(oks(items@)[i as int] == *c);
                    assert forall|k: Seq<u8>|
                        #[trigger] cache.delta_of(k) == combine_model(
                            c0.delta_of(k),
                            changes_delta(s, cfg0, done1, k),
                        ) by {
                        assert(cache.delta_of(k) =~= combine_model(
                            combine_model(c0.delta_of(k), changes_delta(s, cfg0, done, k)),
                            change_delta(s, cfg0, *c, k),
                        ));
                        lemma_combine_associative(
                            c0.delta_of(k),
                            changes_delta(s, cfg0, done, k),
                            change_delta(s, cfg0, *c, k),
                        );
                    }
                    assert forall|k: Seq<u8>|
                        #[trigger] cache.tracks_key(k) == (c0.tracks_key(k) || changes_track(
                            s,
                            cfg0,
                            done1,
                            k,
                        )) by {}
                }
            },
        }
        i = i + 1;
    }
    proof {
        assert(oks(items@).take(items@.len() as int) =~= oks(items@));
    }
    Result::Ok(())
}

/// Finalizes every registered cache and merges all resulting runs: the
/// merge stage, entered only after the parallel phase has completed.
pub fn merge_stage(collection: AppendOnlyCollection) -> (out: SortedRun)
    requires
        forall|j: int| 0 <= j < collection@.len() ==> (#[trigger] collection@[j]).wf(),
    ensures
        run_wf(out.entries@),
        forall|k: Seq<u8>| run_delta_at(out.entries@, k) == caches_delta(collection@, k),
        forall|k: Seq<u8>| run_contains_key(out.entries@, k) == caches_track(collection@, k),
{
    let ghost cs0 = collection@;
    let mut caches = collection.into_items();
    let mut all_runs: Vec<SortedRun> = Vec::new();
    let ghost mut i: int = 0;
    proof {
        assert(caches@ =~= cs0.skip(0));
        assert(cs0.take(0) =~= Seq::<BoundedDeltaCache>::empty());
    }
    while caches.len() > 0
        invariant
            0 <= i <= cs0.len(),
            caches@ == cs0.skip(i),
            forall|j: int| 0 <= j < cs0.len() ==> (#[trigger] cs0[j]).wf(),
            runs_wf(all_runs@),
            forall|k: Seq<u8>|
                #[trigger] runs_delta_at(all_runs@, k) == caches_delta(cs0.take(i), k),
            forall|k: Seq<u8>|
                #[trigger] runs_contain_key(all_runs@, k) == caches_track(cs0.take(i), k),
        decreases caches@.len(),
    {
        let c = caches.remove(0);
        proof {
            assert(c == cs0[i]);
            assert(caches@ =~= cs0.skip(i + 1));
        }
        let mut new_runs = c.finalize();
        let ghost prev_runs = all_runs@;
        let ghost added = new_runs@;
        all_runs.append(&mut new_runs);
        proof {
            assert(all_runs@ == prev_runs + added);
            assert(cs0.take(i + 1).drop_last() =~= cs0.take(i));
            assert(cs0.take(i + 1).last() == cs0[i]);
            assert forall|k: Seq<u8>|
                #[trigger] runs_delta_at(all_runs@, k) == caches_delta(cs0.take(i + 1), k) by {
                lemma_runs_delta_concat(prev_runs, added, k);
            }
            assert forall|k: Seq<u8>|
                #[trigger] runs_contain_key(all_runs@, k) == caches_track(cs0.take(i + 1), k) by {
                lemma_runs_contain_concat(prev_runs, added, k);
            }
            assert(runs_wf(all_runs@)) by {
                assert forall|j: int| 0 <= j < all_runs@.len() implies run_wf(
                    (#[trigger] all_runs@[j]).entries@,
                ) by {
                    if j < prev_runs.len() {
                        assert(all_runs@[j] == prev_runs[j]);
                    } else {
                        assert(all_runs@[j] == added[j - prev_runs.len()]);
                        assert(runs_wf(added));
                    }
                }
            }
            i = i + 1;
        }
    }
    proof {
        assert(cs0.take(i) =~= cs0);
    }
    let merged = merge_runs(all_runs);
    proof {
        assert forall|k: Seq<u8>| run_delta_at(merged.entries@, k) == caches_delta(cs0, k) by {
            assert(run_delta_at(merged.entries@, k) == runs_delta_at(all_runs@, k));
            assert(runs_delta_at(all_runs@, k) == caches_delta(cs0.take(i), k));
        }
        assert forall|k: Seq<u8>| run_contains_key(merged.entries@, k) == caches_track(
            cs0,
            k,
        ) by {
            assert(run_contains_key(merged.entries@, k) == runs_contain_key(all_runs@, k));
            assert(runs_contain_key(all_runs@, k) == caches_track(cs0.take(i), k));
        }
    }
    merged
}

/// Reads the run configuration from the snapshot, as resolved for one
/// strategy.
pub fn resolve_run_config<S: SearchableExtractor>(strategy: &S, snap: &IndexSnapshot) -> (cfg:
    ExtractConfig)
    ensures
        cfg.allowed_attributes is Some <==> snap.searchable_attributes is Some,
        names_match_opt(cfg.allowed_attributes, snap.searchable_attributes),
        names_match(cfg.skipped_attributes@, snap.skipped_attributes@),
        cfg.tokenizer.separators@ == snap.separators@,
        cfg.tokenizer.max_positions == snap.max_positions_per_attribute,
{
    let allowed = match strategy.attributes_to_extract(snap) {
        Option::Some(a) => Option::Some(copy_names(a)),
        Option::None => Option::None,
    };
    let skip = copy_names(strategy.attributes_to_skip(snap));
    let separators = copy_bytes(&snap.separators);
    ExtractConfig {
        allowed_attributes: allowed,
        skipped_attributes: skip,
        tokenizer: crate::tokenize::TokenizerConfig {
            separators,
            max_positions: snap.max_positions_per_attribute,
        },
    }
}

/// Name lists equal name for name.
pub open spec fn names_match(a: Seq<Vec<u8>>, b: Seq<Vec<u8>>) -> bool {
    a.len() == b.len() && forall|i: int| 0 <= i < a.len() ==> (#[trigger] a[i])@ == b[i]@
}

pub open spec fn names_match_opt(a: Option<Vec<Vec<u8>>>, b: Option<Vec<Vec<u8>>>) -> bool {
    match (a, b) {
        (Option::Some(av), Option::Some(bv)) => names_match(av@, bv@),
        (Option::None, Option::None) => true,
        _ => false,
    }
}

fn copy_names(src: &Vec<Vec<u8>>) -> (r: Vec<Vec<u8>>)
    ensures
        names_match(r@, src@),
{
    let mut out: Vec<Vec<u8>> = Vec::new();
    let mut i: usize = 0;
    while i < src.len()
        invariant
            i <= src@.len(),
            out@.len() == i,
            forall|j: int| 0 <= j < i ==> (#[trigger] out@[j])@ == src@[j]@,
        decreases src@.len() - i,
    {
        let w = copy_bytes(&src[i]);
        out.push(w);
        i = i + 1;
    }
    out
}

/// Runs the whole extraction: each worker's share goes through the
/// strategy into that worker's own bounded cache, caches are registered
/// in the append-only collection, and on success the merge stage
/// produces the single sorted, delta-resolved posting stream.
///
/// The first failed item anywhere makes the whole run fail and no
/// merged stream is produced.
pub fn run_extraction<S: SearchableExtractor>(
    strategy: &S,
    cfg: &ExtractConfig,
    fields_ids_map: &GlobalFieldsIdsMap,
    cache_entry_budget: usize,
    worker_changes: &Vec<Vec<Result<DocumentChange, IndexingError>>>,
) -> (r: Result<SortedRun, IndexingError>)
    requires
        fields_ids_map.wf(),
        cache_entry_budget >= 1,
    ensures
        (r is Ok <==> all_workers_ok(worker_changes@)),
        r is Err ==> exists|w: int|
            0 <= w < worker_changes@.len() && exists|i: int|
                0 <= i < (#[trigger] worker_changes@[w])@.len() && worker_changes@[w]@[i]
                    == Result::<DocumentChange, IndexingError>::Err(r->Err_0),
        r is Ok ==> run_wf(r->Ok_0.entries@),
        r is Ok ==> forall|k: Seq<u8>|
            run_delta_at(r->Ok_0.entries@, k) == workers_delta(
                *strategy,
                *cfg,
                worker_changes@,
                k,
            ),
        r is Ok ==> forall|k: Seq<u8>|
            run_contains_key(r->Ok_0.entries@, k) == workers_track(
                *strategy,
                *cfg,
                worker_changes@,
                k,
            ),
{
    let ghost s = *strategy;
    let ghost cfg0 = *cfg;
    let ghost ws = worker_changes@;
    let mut collection = AppendOnlyCollection::new();
    let mut w: usize = 0;
    while w < worker_changes.len()
        invariant
            w <= ws.len(),
            ws == worker_changes@,
            s == *strategy,
            cfg0 == *cfg,
            fields_ids_map.wf(),
            cache_entry_budget >= 1,
            collection@.len() == w,
            forall|j: int| 0 <= j < collection@.len() ==> (#[trigger] collection@[j]).wf(),
            forall|j: int| 0 <= j < w ==> all_items_ok((#[trigger] ws[j])@),
            forall|k: Seq<u8>|
                #[trigger] caches_delta(collection@, k) == workers_delta(
                    s,
                    cfg0,
                    ws.take(w as int),
                    k,
                ),
            forall|k: Seq<u8>|
                #[trigger] caches_track(collection@, k) == workers_track(
                    s,
                    cfg0,
                    ws.take(w as int),
                    k,
                ),
        decreases ws.len() - w,
    {
        let items = &worker_changes[w];
        let mut cache = BoundedDeltaCache::new(cache_entry_budget);
        let mut worker_map = fields_ids_map.duplicate();
        let res = process_worker_changes(strategy, cfg, &mut worker_map, &mut cache, items);
        match res {
            Result::Err(e) => {
                proof {
                    assert(!all_items_ok(ws[w as int]@));
                    assert(!all_workers_ok(ws));
                }
                return Result::Err(e);
            },
            Result::Ok(()) => {
                let ghost coll_before = collection@;
                let ghost reg = cache;
                collection.append(cache);
                proof {
                    assert(collection@.drop_last() =~= coll_before);
                    assert(collection@.last() == reg);
                    assert(ws.take(w + 1).drop_last() =~= ws.take(w as int));
                    assert(ws.take(w + 1).last() == ws[w as int]);
                    assert forall|k: Seq<u8>|
                        #[trigger] caches_delta(collection@, k) == workers_delta(
                            s,
                            cfg0,
                            ws.take(w + 1),
                            k,
                        ) by {
                        lemma_combine_empty(changes_delta(s, cfg0, oks(ws[w as int]@), k));
                        assert(reg.delta_of(k) =~= changes_delta(s, cfg0, oks(ws[w as int]@), k));
                        assert(caches_delta(coll_before, k) == workers_delta(
                            s,
                            cfg0,
                            ws.take(w as int),
                            k,
                        ));
                        assert(caches_delta(collection@, k) == combine_model(
                            caches_delta(coll_before, k),
                            reg.delta_of(k),
                        ));
                        assert(workers_delta(s, cfg0, ws.take(w + 1), k) == combine_model(
                            workers_delta(s, cfg0, ws.take(w as int), k),
                            changes_delta(s, cfg0, oks(ws[w as int]@), k),
                        ));
                    }
                    assert forall|k: Seq<u8>|
                        #[trigger] caches_track(collection@, k) == workers_track(
                            s,
                            cfg0,
                            ws.take(w + 1),
                            k,
                        ) by {
                        assert(caches_track(coll_before, k) == workers_track(
                            s,
                            cfg0,
                            ws.take(w as int),
                            k,
                        ));
                        assert(caches_track(collection@, k) == (caches_track(coll_before, k)
                            || reg.tracks_key(k)));
                        assert(reg.tracks_key(k) == changes_track(s, cfg0, oks(ws[w as int]@), k));
                        assert(workers_track(s, cfg0, ws.take(w + 1), k) == (workers_track(
                            s,
                            cfg0,
                            ws.take(w as int),
                            k,
                        ) || changes_track(s, cfg0, oks(ws[w as int]@), k)));
                    }
                }
            },
        }
        w = w + 1;
    }
    proof {
        assert(ws.take(w as int) =~= ws);
    }
    let merged = merge_stage(collection);
    proof {
        assert forall|k: Seq<u8>| run_delta_at(merged.entries@, k) == workers_delta(
            s,
            cfg0,
            ws,
            k,
        ) by {
            assert(run_delta_at(merged.entries@, k) == caches_delta(collection@, k));
            assert(caches_delta(collection@, k) == workers_delta(s, cfg0, ws.take(w as int), k));
        }
        assert forall|k: Seq<u8>| run_contains_key(merged.entries@, k) == workers_track(
            s,
            cfg0,
            ws,
            k,
        ) by {
            assert(run_contains_key(merged.entries@, k) == caches_track(collection@, k));
            assert(caches_track(collection@, k) == workers_track(s, cfg0, ws.take(w as int), k));
        }
    }
    Result::Ok(merged)
}

/// Law: a change sequence split at any point contributes the combination
/// of its parts — the per-key delta is additive over concatenation.
pub proof fn lemma_changes_delta_concat<S: SearchableExtractor>(
    s: S,
    cfg: ExtractConfig,
    a: Seq<DocumentChange>,
    b: Seq<DocumentChange>,
    k: Seq<u8>,
)
    ensures
        changes_delta(s, cfg, a + b, k) == combine_model(
            changes_delta(s, cfg, a, k),
            changes_delta(s, cfg, b, k),
        ),
    decreases b.len(),
{
    if b.len() == 0 {
        assert(a + b =~= a);
        lemma_combine_empty(changes_delta(s, cfg, a, k));
    } else {
        assert((a + b).drop_last() =~= a + b.drop_last());
        assert((a + b).last() == b.last());
        lemma_changes_delta_concat(s, cfg, a, b.drop_last(), k);
        lemma_combine_associative(
            changes_delta(s, cfg, a, k),
            changes_delta(s, cfg, b.drop_last(), k),
            change_delta(s, cfg, b.last(), k),
        );
    }
}

/// Law (partition invariance): however a change stream is split across
/// two workers, and whichever worker's cache is merged first, the
/// per-key delta of the merged output is the same.
pub proof fn lemma_partition_invariance<S: SearchableExtractor>(
    s: S,
    cfg: ExtractConfig,
    a: Seq<DocumentChange>,
    b: Seq<DocumentChange>,
    k: Seq<u8>,
)
    ensures
        combine_model(changes_delta(s, cfg, a, k), changes_delta(s, cfg, b, k)) == changes_delta(
            s,
            cfg,
            a + b,
            k,
        ),
        changes_delta(s, cfg, a + b, k) == changes_delta(s, cfg, b + a, k),
{
    lemma_changes_delta_concat(s, cfg, a, b, k);
    lemma_changes_delta_concat(s, cfg, b, a, k);
    lemma_combine_commutative(changes_delta(s, cfg, a, k), changes_delta(s, cfg, b, k));
}

/// Law: which documents a change sequence adds to or removes from key
/// `k` — exactly the documents whose change contributes `k` on the
/// corresponding side.
pub proof fn lemma_changes_delta_membership<S: SearchableExtractor>(
    s: S,
    cfg: ExtractConfig,
    cs: Seq<DocumentChange>,
    k: Seq<u8>,
    d: u32,
)
    ensures
        changes_delta(s, cfg, cs, k).add.contains(d) <==> exists|i: int|
            0 <= i < cs.len() && docid_of(#[trigger] cs[i]) == d && s.contributes(
                cfg,
                new_side(cs[i]),
                k,
            ),
        changes_delta(s, cfg, cs, k).del.contains(d) <==> exists|i: int|
            0 <= i < cs.len() && docid_of(#[trigger] cs[i]) == d && s.contributes(
                cfg,
                old_side(cs[i]),
                k,
            ),
    decreases cs.len(),
{
    if cs.len() > 0 {
        lemma_changes_delta_membership(s, cfg, cs.drop_last(), k, d);
        let rest = cs.drop_last();
        if changes_delta(s, cfg, rest, k).add.contains(d) {
            let i = choose|i: int|
                0 <= i < rest.len() && docid_of(#[trigger] rest[i]) == d && s.contributes(
                    cfg,
                    new_side(rest[i]),
                    k,
                );
            assert(cs[i] == rest[i]);
        }
        if changes_delta(s, cfg, rest, k).del.contains(d) {
            let i = choose|i: int|
                0 <= i < rest.len() && docid_of(#[trigger] rest[i]) == d && s.contributes(
                    cfg,
                    old_side(rest[i]),
                    k,
                );
            assert(cs[i] == rest[i]);
        }
        if exists|i: int|
            0 <= i < cs.len() && docid_of(#[trigger] cs[i]) == d && s.contributes(
                cfg,
                new_side(cs[i]),
                k,
            ) {
            let i = choose|i: int|
                0 <= i < cs.len() && docid_of(#[trigger] cs[i]) == d && s.contributes(
                    cfg,
                    new_side(cs[i]),
                    k,
                );
            if i < cs.len() - 1 {
                assert(rest[i] == cs[i]);
                assert(changes_delta(s, cfg, rest, k).add.contains(d));
            }
        }
        if exists|i: int|
            0 <= i < cs.len() && docid_of(#[trigger] cs[i]) == d && s.contributes(
                cfg,
                old_side(cs[i]),
                k,
            ) {
            let i = choose|i: int|
                0 <= i < cs.len() && docid_of(#[trigger] cs[i]) == d && s.contributes(
                    cfg,
                    old_side(cs[i]),
                    k,
                );
            if i < cs.len() - 1 {
                assert(rest[i] == cs[i]);
                assert(changes_delta(s, cfg, rest, k).del.contains(d));
            }
        }
    }
}

/// Law: the resolved membership of a key after a run equals the latest
/// document state — a changed document is present exactly when its new
/// side contains the key, an untouched document keeps its previous
/// membership.  Holds whenever each document is covered by at most one
/// change and the old sides agree with the previous membership.
pub proof fn lemma_final_membership<S: SearchableExtractor>(
    s: S,
    cfg: ExtractConfig,
    cs: Seq<DocumentChange>,
    prev: Set<u32>,
    k: Seq<u8>,
    d: u32,
)
    requires
        forall|i: int, j: int|
            0 <= i < j < cs.len() ==> docid_of(#[trigger] cs[i]) != docid_of(#[trigger] cs[j]),
        forall|i: int|
            0 <= i < cs.len() ==> (prev.contains(docid_of(#[trigger] cs[i])) <==> s.contributes(
                cfg,
                old_side(cs[i]),
                k,
            )),
    ensures
        (forall|i: int| 0 <= i < cs.len() ==> docid_of(#[trigger] cs[i]) != d) ==> (apply_model(
            prev,
            changes_delta(s, cfg, cs, k),
        ).contains(d) <==> prev.contains(d)),
        forall|i: int|
            0 <= i < cs.len() && docid_of(#[trigger] cs[i]) == d ==> (apply_model(
                prev,
                changes_delta(s, cfg, cs, k),
            ).contains(d) <==> s.contributes(cfg, new_side(cs[i]), k)),
{
    lemma_changes_delta_membership(s, cfg, cs, k, d);
    let total = changes_delta(s, cfg, cs, k);
    if forall|i: int| 0 <= i < cs.len() ==> docid_of(#[trigger] cs[i]) != d {
        assert(!total.add.contains(d));
        assert(!total.del.contains(d));
    }
    assert forall|i: int|
        0 <= i < cs.len() && docid_of(#[trigger] cs[i]) == d implies (apply_model(
        prev,
        total,
    ).contains(d) <==> s.contributes(cfg, new_side(cs[i]), k)) by {
        if s.contributes(cfg, new_side(cs[i]), k) {
            assert(total.add.contains(d));
        } else {
            assert(!total.add.contains(d)) by {
                if total.add.contains(d) {
                    let j = choose|j: int|
                        0 <= j < cs.len() && docid_of(#[trigger] cs[j]) == d && s.contributes(
                            cfg,
                            new_side(cs[j]),
                            k,
                        );
                    assert(j == i);
                }
            }
            if prev.contains(d) {
                assert(s.contributes(cfg, old_side(cs[i]), k));
                assert(total.del.contains(d));
            }
        }
    }
}

} // verus!
