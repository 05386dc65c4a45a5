use searchable_extraction::cache::BoundedDeltaCache;
use searchable_extraction::delta::Delta;
use searchable_extraction::docids::DocIdSet;
use searchable_extraction::driver::{process_worker_changes, resolve_run_config, run_extraction};
use searchable_extraction::extract::{
    DocumentChange, ExtractConfig, FieldContent, IndexSnapshot, IndexingError,
    SearchableExtractor, WordDocidsExtractor, WordPairProximityDocidsExtractor,
};
use searchable_extraction::fields::GlobalFieldsIdsMap;
use searchable_extraction::merge::merge_runs;
use searchable_extraction::order::{key_compare, KeyOrder};
use searchable_extraction::tokenize::{tokenize, TokenizerConfig};

fn config(max_positions: usize) -> ExtractConfig {
    ExtractConfig {
        allowed_attributes: None,
        skipped_attributes: Vec::new(),
        tokenizer: TokenizerConfig { separators: vec![b' '], max_positions },
    }
}

fn field(name: &str, text: &str) -> FieldContent {
    FieldContent { name: name.as_bytes().to_vec(), text: text.as_bytes().to_vec() }
}

fn insert(docid: u32, name: &str, text: &str) -> DocumentChange {
    DocumentChange::Insertion { docid, new_fields: vec![field(name, text)] }
}

fn pair_key(w1: &str, w2: &str, d: u8) -> Vec<u8> {
    let mut k = w1.as_bytes().to_vec();
    k.push(0);
    k.extend_from_slice(w2.as_bytes());
    k.push(0);
    k.push(d);
    k
}

fn keys_of(run: &searchable_extraction::cache::SortedRun) -> Vec<Vec<u8>> {
    run.entries.iter().map(|e| e.key.clone()).collect()
}

fn adds_of(run: &searchable_extraction::cache::SortedRun, key: &[u8]) -> Vec<u32> {
    for e in &run.entries {
        if e.key == key {
            return e.delta.add_ids().ids().clone();
        }
    }
    Vec::new()
}

fn dels_of(run: &searchable_extraction::cache::SortedRun, key: &[u8]) -> Vec<u32> {
    for e in &run.entries {
        if e.key == key {
            return e.delta.del_ids().ids().clone();
        }
    }
    Vec::new()
}

#[test]
fn scenario_insert_yields_word_postings() {
    let cfg = config(1000);
    let map = GlobalFieldsIdsMap::new();
    let workers = vec![vec![Ok(insert(1, "title", "red car"))]];
    let out = run_extraction(&WordDocidsExtractor, &cfg, &map, 100, &workers).unwrap();
    assert_eq!(keys_of(&out), vec![b"car".to_vec(), b"red".to_vec()]);
    assert_eq!(adds_of(&out, b"red"), vec![1]);
    assert_eq!(adds_of(&out, b"car"), vec![1]);
    assert_eq!(dels_of(&out, b"red"), Vec::<u32>::new());
}

#[test]
fn scenario_insert_yields_proximity_pair_at_distance_one() {
    let cfg = config(1000);
    let map = GlobalFieldsIdsMap::new();
    let workers = vec![vec![Ok(insert(1, "title", "red car"))]];
    let out = run_extraction(&WordPairProximityDocidsExtractor, &cfg, &map, 100, &workers)
        .unwrap();
    assert_eq!(keys_of(&out), vec![pair_key("red", "car", 1)]);
    assert_eq!(adds_of(&out, &pair_key("red", "car", 1)), vec![1]);
}

#[test]
fn scenario_update_moves_doc_between_words() {
    let cfg = config(1000);
    let map = GlobalFieldsIdsMap::new();
    // Prior state, from the earlier insert of "red car".
    let red_prev = DocIdSet::singleton(1);
    let car_prev = DocIdSet::singleton(1);
    let blue_prev = DocIdSet::new();

    let update = DocumentChange::Update {
        docid: 1,
        old_fields: vec![field("title", "red car")],
        new_fields: vec![field("title", "blue car")],
    };
    let workers = vec![vec![Ok(update)]];
    let out = run_extraction(&WordDocidsExtractor, &cfg, &map, 100, &workers).unwrap();

    // red: removed; blue: added; car: removed and re-added.
    assert_eq!(dels_of(&out, b"red"), vec![1]);
    assert_eq!(adds_of(&out, b"red"), Vec::<u32>::new());
    assert_eq!(adds_of(&out, b"blue"), vec![1]);
    assert_eq!(dels_of(&out, b"car"), vec![1]);
    assert_eq!(adds_of(&out, b"car"), vec![1]);

    // Applying the deltas to the prior state: doc 1 leaves "red", enters
    // "blue", and keeps "car" throughout.
    for e in &out.entries {
        if e.key == b"red" {
            assert_eq!(e.delta.apply(&red_prev).ids(), &Vec::<u32>::new());
        } else if e.key == b"blue" {
            assert_eq!(e.delta.apply(&blue_prev).ids(), &vec![1]);
        } else if e.key == b"car" {
            assert_eq!(e.delta.apply(&car_prev).ids(), &vec![1]);
        } else {
            panic!("unexpected key");
        }
    }
}

#[test]
fn scenario_update_moves_doc_between_pairs() {
    let cfg = config(1000);
    let map = GlobalFieldsIdsMap::new();
    let update = DocumentChange::Update {
        docid: 1,
        old_fields: vec![field("title", "red car")],
        new_fields: vec![field("title", "blue car")],
    };
    let out = run_extraction(
        &WordPairProximityDocidsExtractor,
        &cfg,
        &map,
        100,
        &vec![vec![Ok(update)]],
    )
    .unwrap();
    // The pair ("red","car") is removed for doc 1 and ("blue","car") added.
    assert_eq!(dels_of(&out, &pair_key("red", "car", 1)), vec![1]);
    assert_eq!(adds_of(&out, &pair_key("red", "car", 1)), Vec::<u32>::new());
    assert_eq!(adds_of(&out, &pair_key("blue", "car", 1)), vec![1]);
    assert_eq!(dels_of(&out, &pair_key("blue", "car", 1)), Vec::<u32>::new());
}

#[test]
fn scenario_disjoint_workers_merge_regardless_of_order() {
    let cfg = config(1000);
    let map = GlobalFieldsIdsMap::new();
    let w1 = vec![Ok(insert(1, "title", "car"))];
    let w2 = vec![Ok(insert(2, "title", "car"))];

    let out_a =
        run_extraction(&WordDocidsExtractor, &cfg, &map, 100, &vec![w1.clone(), w2.clone()])
            .unwrap();
    let out_b = run_extraction(&WordDocidsExtractor, &cfg, &map, 100, &vec![w2, w1]).unwrap();

    assert_eq!(adds_of(&out_a, b"car"), vec![1, 2]);
    assert_eq!(adds_of(&out_b, b"car"), vec![1, 2]);
    assert_eq!(keys_of(&out_a), keys_of(&out_b));
}

#[test]
fn scenario_error_on_one_worker_fails_the_run() {
    let cfg = config(1000);
    let map = GlobalFieldsIdsMap::new();
    // Worker 1 has already written entries; worker 2 hits a snapshot error.
    let w1 = vec![Ok(insert(1, "title", "red car"))];
    let w2 = vec![Err(IndexingError::Snapshot)];
    let r = run_extraction(&WordDocidsExtractor, &cfg, &map, 100, &vec![w1, w2]);
    assert_eq!(r.unwrap_err(), IndexingError::Snapshot);
}

#[test]
fn source_error_is_reported_as_the_runs_error() {
    let cfg = config(1000);
    let map = GlobalFieldsIdsMap::new();
    let workers = vec![vec![Ok(insert(1, "a", "x")), Err(IndexingError::Source)]];
    let r = run_extraction(&WordDocidsExtractor, &cfg, &map, 100, &workers);
    assert_eq!(r.unwrap_err(), IndexingError::Source);
}

#[test]
fn truncated_positions_contribute_nothing() {
    // Cutoff after one position: "car" at position 1 is dropped.
    let cfg = config(1);
    let map = GlobalFieldsIdsMap::new();
    let workers = vec![vec![Ok(insert(1, "title", "red car"))]];
    let out = run_extraction(&WordDocidsExtractor, &cfg, &map, 100, &workers).unwrap();
    assert_eq!(keys_of(&out), vec![b"red".to_vec()]);

    // Cutoff at zero: every token exceeds it, so zero postings.
    let cfg0 = config(0);
    let workers0 = vec![vec![Ok(insert(1, "title", "red car"))]];
    let out0 = run_extraction(&WordDocidsExtractor, &cfg0, &map, 100, &workers0).unwrap();
    assert!(out0.entries.is_empty());

    // Pairs beyond the cutoff disappear too.
    let out_pairs =
        run_extraction(&WordPairProximityDocidsExtractor, &config(1), &map, 100, &vec![vec![
            Ok(insert(1, "title", "red car")),
        ]])
        .unwrap();
    assert!(out_pairs.entries.is_empty());
}

#[test]
fn merged_output_is_strictly_sorted_without_duplicates() {
    let cfg = config(1000);
    let map = GlobalFieldsIdsMap::new();
    let w1 = vec![Ok(insert(1, "title", "pear apple fig")), Ok(insert(2, "title", "apple"))];
    let w2 = vec![Ok(insert(3, "title", "fig pear")), Ok(insert(4, "body", "apple fig"))];
    let out = run_extraction(&WordDocidsExtractor, &cfg, &map, 100, &vec![w1, w2]).unwrap();
    let keys = keys_of(&out);
    for pair in keys.windows(2) {
        assert!(pair[0] < pair[1], "keys must be strictly ascending");
    }
    assert_eq!(adds_of(&out, b"apple"), vec![1, 2, 4]);
    assert_eq!(adds_of(&out, b"fig"), vec![1, 3, 4]);
    assert_eq!(adds_of(&out, b"pear"), vec![1, 3]);
}

#[test]
fn spilling_cache_changes_nothing_in_the_merged_output() {
    let cfg = config(1000);
    let map = GlobalFieldsIdsMap::new();
    let w = vec![
        Ok(insert(1, "title", "one two three four")),
        Ok(insert(2, "title", "two five")),
    ];
    // Budget of 1 entry forces a spill on nearly every insert.
    let tiny = run_extraction(&WordDocidsExtractor, &cfg, &map, 1, &vec![w.clone()]).unwrap();
    let large = run_extraction(&WordDocidsExtractor, &cfg, &map, 1000, &vec![w]).unwrap();
    assert_eq!(keys_of(&tiny), keys_of(&large));
    assert_eq!(adds_of(&tiny, b"two"), vec![1, 2]);
    assert_eq!(adds_of(&large, b"two"), vec![1, 2]);
}

#[test]
fn spilled_runs_surface_through_finalize_and_merge() {
    let mut cache = BoundedDeltaCache::new(1);
    cache.insert_add(b"b".to_vec(), 1);
    cache.insert_add(b"a".to_vec(), 2);
    cache.insert_add(b"b".to_vec(), 3);
    let runs = cache.finalize();
    assert!(runs.len() >= 2, "a budget of one entry must spill");
    let merged = merge_runs(runs);
    assert_eq!(keys_of(&merged), vec![b"a".to_vec(), b"b".to_vec()]);
    assert_eq!(adds_of(&merged, b"b"), vec![1, 3]);
    assert_eq!(adds_of(&merged, b"a"), vec![2]);
}

#[test]
fn combine_is_commutative_and_idempotent_on_values() {
    let mut d1 = Delta::empty();
    d1.add_doc(1);
    d1.remove_doc(2);
    let mut d2 = Delta::empty();
    d2.add_doc(3);
    let ab = d1.combine_with(&d2);
    let ba = d2.combine_with(&d1);
    assert_eq!(ab.add_ids().ids(), ba.add_ids().ids());
    assert_eq!(ab.del_ids().ids(), ba.del_ids().ids());
    let twice = d1.combine_with(&d1);
    assert_eq!(twice.add_ids().ids(), d1.add_ids().ids());
    assert_eq!(twice.del_ids().ids(), d1.del_ids().ids());
}

#[test]
fn applying_a_delta_removes_then_adds() {
    let mut d = Delta::empty();
    d.remove_doc(1);
    d.add_doc(1);
    d.remove_doc(2);
    let prev = {
        let mut p = DocIdSet::new();
        p.insert_id(1);
        p.insert_id(2);
        p
    };
    // Doc 1 is removed and re-added, so it stays; doc 2 leaves.
    assert_eq!(d.apply(&prev).ids(), &vec![1]);
    // Applying twice gives the same membership.
    assert_eq!(d.apply(&d.apply(&prev)).ids(), &vec![1]);
}

#[test]
fn tokenizer_normalizes_splits_and_cuts_off() {
    let cfg = TokenizerConfig { separators: vec![b' ', b','], max_positions: 3 };
    let toks = tokenize(&b"Red CAR,  blue sky".to_vec(), &cfg);
    assert_eq!(toks, vec![b"red".to_vec(), b"car".to_vec(), b"blue".to_vec()]);
    let none = tokenize(&b"   ".to_vec(), &cfg);
    assert!(none.is_empty());
}

#[test]
fn fields_map_keeps_ids_stable_across_clones() {
    let mut base = GlobalFieldsIdsMap::new();
    let title = base.resolve_or_add(&b"title".to_vec());
    let body = base.resolve_or_add(&b"body".to_vec());
    assert_ne!(title, body);

    let mut clone_a = base.duplicate();
    let mut clone_b = base.duplicate();
    assert_eq!(clone_a.resolve_or_add(&b"title".to_vec()), title);
    assert_eq!(clone_b.resolve_or_add(&b"title".to_vec()), title);
    // New names extend each clone without disturbing existing ids.
    let fresh = clone_a.resolve_or_add(&b"tags".to_vec());
    assert_eq!(fresh, 2);
    assert_eq!(clone_a.resolve_or_add(&b"body".to_vec()), body);
    assert_eq!(clone_a.id_of(&b"missing".to_vec()), None);
}

#[test]
fn skipped_attributes_are_not_extracted() {
    let cfg = ExtractConfig {
        allowed_attributes: Some(vec![b"title".to_vec(), b"body".to_vec()]),
        skipped_attributes: vec![b"body".to_vec()],
        tokenizer: TokenizerConfig { separators: vec![b' '], max_positions: 1000 },
    };
    let map = GlobalFieldsIdsMap::new();
    let change = DocumentChange::Insertion {
        docid: 1,
        new_fields: vec![field("title", "red"), field("body", "blue"), field("tags", "green")],
    };
    let out = run_extraction(&WordDocidsExtractor, &cfg, &map, 100, &vec![vec![Ok(change)]])
        .unwrap();
    assert_eq!(keys_of(&out), vec![b"red".to_vec()]);
}

#[test]
fn deletion_produces_remove_deltas_only() {
    let cfg = config(1000);
    let map = GlobalFieldsIdsMap::new();
    let change = DocumentChange::Deletion { docid: 7, old_fields: vec![field("title", "red car")] };
    let out = run_extraction(&WordDocidsExtractor, &cfg, &map, 100, &vec![vec![Ok(change)]])
        .unwrap();
    assert_eq!(dels_of(&out, b"red"), vec![7]);
    assert_eq!(dels_of(&out, b"car"), vec![7]);
    assert_eq!(adds_of(&out, b"red"), Vec::<u32>::new());
    assert_eq!(adds_of(&out, b"car"), Vec::<u32>::new());
}

#[test]
fn proximity_pairs_respect_the_window() {
    let cfg = config(1000);
    let map = GlobalFieldsIdsMap::new();
    // Ten words: the pair (w0, w9) is at distance 9, beyond the window.
    let text = "a b c d e f g h i j";
    let out = run_extraction(
        &WordPairProximityDocidsExtractor,
        &cfg,
        &map,
        1000,
        &vec![vec![Ok(insert(1, "title", text))]],
    )
    .unwrap();
    let keys = keys_of(&out);
    assert!(keys.contains(&pair_key("a", "b", 1)));
    assert!(keys.contains(&pair_key("a", "h", 7)));
    assert!(!keys.contains(&pair_key("a", "i", 8)));
    assert!(!keys.contains(&pair_key("a", "j", 9)));
}

#[test]
fn worker_processing_stops_at_the_first_error() {
    let cfg = config(1000);
    let mut map = GlobalFieldsIdsMap::new();
    let mut cache = BoundedDeltaCache::new(100);
    let items = vec![
        Ok(insert(1, "title", "red")),
        Err(IndexingError::Tokenization),
        Err(IndexingError::FieldResolution),
    ];
    let r = process_worker_changes(&WordDocidsExtractor, &cfg, &mut map, &mut cache, &items);
    assert_eq!(r.unwrap_err(), IndexingError::Tokenization);
}

#[test]
fn config_resolution_reads_the_snapshot() {
    let snap = IndexSnapshot {
        searchable_attributes: Some(vec![b"title".to_vec()]),
        skipped_attributes: vec![b"internal".to_vec()],
        separators: vec![b' '],
        max_positions_per_attribute: 50,
        cache_entry_budget: 10,
    };
    let cfg = resolve_run_config(&WordDocidsExtractor, &snap);
    assert_eq!(cfg.allowed_attributes, Some(vec![b"title".to_vec()]));
    assert_eq!(cfg.skipped_attributes, vec![b"internal".to_vec()]);
    assert_eq!(cfg.tokenizer.separators, vec![b' ']);
    assert_eq!(cfg.tokenizer.max_positions, 50);

    let map = GlobalFieldsIdsMap::new();
    let out = run_extraction(
        &WordDocidsExtractor,
        &cfg,
        &map,
        snap.cache_entry_budget,
        &vec![vec![Ok(insert(1, "title", "red")), Ok(insert(2, "internal", "x"))]],
    )
    .unwrap();
    assert_eq!(keys_of(&out), vec![b"red".to_vec()]);
}

#[test]
fn key_order_is_lexicographic_on_bytes() {
    assert!(matches!(key_compare(&b"ant".to_vec(), &b"bee".to_vec()), KeyOrder::Less));
    assert!(matches!(key_compare(&b"bee".to_vec(), &b"bee".to_vec()), KeyOrder::Equal));
    assert!(matches!(key_compare(&b"bee".to_vec(), &b"be".to_vec()), KeyOrder::Greater));
    assert!(matches!(key_compare(&b"be".to_vec(), &b"bee".to_vec()), KeyOrder::Less));
}
