//! Extraction strategies: how one document change becomes posting
//! writes.
//!
//! Two strategies share the driver: single-word postings, and ordered
//! word pairs within a bounded proximity window.  Both write an
//! add-delta for every key of the change's new side and a remove-delta
//! for every key of its old side, into the calling worker's cache only.

use vstd::prelude::*;

use crate::cache::BoundedDeltaCache;
use crate::delta::DeltaModel;
use crate::fields::GlobalFieldsIdsMap;
use crate::order::{bytes_equal, copy_bytes};
use crate::tokenize::{spec_tokens, tokenize, TokenizerConfig};

verus! {

/// Error taxonomy of an extraction run.  Errors of collaborators enter
/// through the change stream; the verified extraction itself is total.
#[derive(Clone, Copy, PartialEq, Eq, Structural, Debug)]
pub enum IndexingError {
    /// A document change failed upstream.
    Source,
    /// Opening or reading the read-only snapshot failed.
    Snapshot,
    /// Field content could not be segmented.
    Tokenization,
    /// A field name could not be mapped to an id.
    FieldResolution,
    /// The external sorter failed to write or read a run.
    Spill,
    /// The final merge met a corrupt or unreadable run.
    Merge,
}

/// One stored field of a document: its name and its text content.
#[derive(Clone, Debug)]
pub struct FieldContent {
    pub name: Vec<u8>,
    pub text: Vec<u8>,
}

/// A change event for one document, owned by exactly one worker.
#[derive(Clone, Debug)]
pub enum DocumentChange {
    Insertion { docid: u32, new_fields: Vec<FieldContent> },
    Update { docid: u32, old_fields: Vec<FieldContent>, new_fields: Vec<FieldContent> },
    Deletion { docid: u32, old_fields: Vec<FieldContent> },
}

pub open spec fn docid_of(c: DocumentChange) -> u32 {
    match c {
        DocumentChange::Insertion { docid, .. } => docid,
        DocumentChange::Update { docid, .. } => docid,
        DocumentChange::Deletion { docid, .. } => docid,
    }
}

/// The fields whose postings the change adds.
pub open spec fn new_side(c: DocumentChange) -> Seq<FieldContent> {
    match c {
        DocumentChange::Insertion { new_fields, .. } => new_fields@,
        DocumentChange::Update { new_fields, .. } => new_fields@,
        DocumentChange::Deletion { .. } => Seq::<FieldContent>::empty(),
    }
}

/// The fields whose postings the change removes.
pub open spec fn old_side(c: DocumentChange) -> Seq<FieldContent> {
    match c {
        DocumentChange::Insertion { .. } => Seq::<FieldContent>::empty(),
        DocumentChange::Update { old_fields, .. } => old_fields@,
        DocumentChange::Deletion { old_fields, .. } => old_fields@,
    }
}

/// Read-only snapshot of the index settings an extraction run needs:
/// already-resolved attribute lists, tokenizer settings and cache
/// sizing.
pub struct IndexSnapshot {
    /// `None` means every attribute is searchable.
    pub searchable_attributes: Option<Vec<Vec<u8>>>,
    /// Attributes excluded regardless of the list above.
    pub skipped_attributes: Vec<Vec<u8>>,
    pub separators: Vec<u8>,
    pub max_positions_per_attribute: usize,
    pub cache_entry_budget: usize,
}

/// The resolved per-run extraction configuration.
pub struct ExtractConfig {
    pub allowed_attributes: Option<Vec<Vec<u8>>>,
    pub skipped_attributes: Vec<Vec<u8>>,
    pub tokenizer: TokenizerConfig,
}

pub open spec fn name_in(list: Seq<Vec<u8>>, n: Seq<u8>) -> bool {
    exists|i: int| 0 <= i < list.len() && (#[trigger] list[i])@ == n
}

/// Whether postings are extracted from the attribute named `n`.
pub open spec fn eligible(cfg: ExtractConfig, n: Seq<u8>) -> bool {
    (match cfg.allowed_attributes {
        Option::Some(a) => name_in(a@, n),
        Option::None => true,
    }) && !name_in(cfg.skipped_attributes@, n)
}

/// The tokens of one field under a configuration.
pub open spec fn field_tokens(cfg: ExtractConfig, fld: FieldContent) -> Seq<Seq<u8>> {
    spec_tokens(fld.text@, cfg.tokenizer.separators@, cfg.tokenizer.max_positions as int)
}

/// Token `t` of eligible field `f` is the word key `k`.
pub open spec fn word_pos_match(
    cfg: ExtractConfig,
    fields: Seq<FieldContent>,
    k: Seq<u8>,
    f: int,
    t: int,
) -> bool {
    0 <= f < fields.len() && eligible(cfg, fields[f].name@) && 0 <= t < field_tokens(
        cfg,
        fields[f],
    ).len() && field_tokens(cfg, fields[f])[t] == k
}

/// Whether the fields contribute the single-word key `k`.
pub open spec fn word_contrib(cfg: ExtractConfig, fields: Seq<FieldContent>, k: Seq<u8>) -> bool {
    exists|f: int, t: int| word_pos_match(cfg, fields, k, f, t)
}

/// Matches strictly before field `f_lim`, or in field `f_lim` before
/// token `t_lim`.
pub open spec fn word_contrib_upto(
    cfg: ExtractConfig,
    fields: Seq<FieldContent>,
    k: Seq<u8>,
    f_lim: int,
    t_lim: int,
) -> bool {
    exists|f: int, t: int|
        word_pos_match(cfg, fields, k, f, t) && (f < f_lim || (f == f_lim && t < t_lim))
}

/// Longest token-position distance that still forms a proximity pair.
pub const MAX_PAIR_DISTANCE: usize = 7;

/// The posting key of an ordered token pair at distance `d`: the two
/// words, zero-separated, with the folded-in distance at the end.
pub open spec fn pair_key(w1: Seq<u8>, w2: Seq<u8>, d: int) -> Seq<u8> {
    w1 + seq![0u8] + w2 + seq![0u8, d as u8]
}

/// Tokens `t1 < t2` of eligible field `f`, within the proximity window,
/// form the pair key `k`.
pub open spec fn pair_pos_match(
    cfg: ExtractConfig,
    fields: Seq<FieldContent>,
    k: Seq<u8>,
    f: int,
    t1: int,
    t2: int,
) -> bool {
    0 <= f < fields.len() && eligible(cfg, fields[f].name@) && 0 <= t1 < t2 < field_tokens(
        cfg,
        fields[f],
    ).len() && t2 - t1 <= MAX_PAIR_DISTANCE as int && k == pair_key(
        field_tokens(cfg, fields[f])[t1],
        field_tokens(cfg, fields[f])[t2],
        t2 - t1,
    )
}

/// Whether the fields contribute the proximity-pair key `k`.
pub open spec fn pair_contrib(cfg: ExtractConfig, fields: Seq<FieldContent>, k: Seq<u8>) -> bool {
    exists|f: int, t1: int, t2: int| pair_pos_match(cfg, fields, k, f, t1, t2)
}

/// Matches strictly before position (`f_lim`, `t1_lim`, `t2_lim`) in
/// lexicographic order of (field, first token, second token).
pub open spec fn pair_contrib_upto(
    cfg: ExtractConfig,
    fields: Seq<FieldContent>,
    k: Seq<u8>,
    f_lim: int,
    t1_lim: int,
    t2_lim: int,
) -> bool {
    exists|f: int, t1: int, t2: int|
        pair_pos_match(cfg, fields, k, f, t1, t2) && (f < f_lim || (f == f_lim && (t1 < t1_lim
            || (t1 == t1_lim && t2 < t2_lim))))
}

fn list_contains(list: &Vec<Vec<u8>>, n: &Vec<u8>) -> (r: bool)
    ensures
        r == name_in(list@, n@),
{
    let mut i: usize = 0;
    while i < list.len()
        invariant
            i <= list@.len(),
            forall|j: int| 0 <= j < i ==> (#[trigger] list@[j])@ != n@,
        decreases list@.len() - i,
    {
        if bytes_equal(&list[i], n) {
            proof {
                assert((list@[i as int])@ == n@);
            }
            return true;
        }
        i = i + 1;
    }
    proof {
        if name_in(list@, n@) {
            let j = choose|j: int| 0 <= j < list@.len() && (#[trigger] list@[j])@ == n@;
        }
    }
    false
}

fn is_eligible(cfg: &ExtractConfig, name: &Vec<u8>) -> (r: bool)
    ensures
        r == eligible(*cfg, name@),
{
    let allowed = match &cfg.allowed_attributes {
        Option::Some(a) => list_contains(a, name),
        Option::None => true,
    };
    allowed && !list_contains(&cfg.skipped_attributes, name)
}

fn make_pair_key(w1: &Vec<u8>, w2: &Vec<u8>, d: u8) -> (r: Vec<u8>)
    ensures
        r@ == pair_key(w1@, w2@, d as int),
{
    let mut out = copy_bytes(w1);
    out.push(0);
    let mut i: usize = 0;
    while i < w2.len()
        invariant
            i <= w2@.len(),
            out@ == w1@ + seq![0u8] + w2@.take(i as int),
        decreases w2@.len() - i,
    {
        let b = w2[i];
        out.push(b);
        proof {
            assert(w1@ + seq![0u8] + w2@.take(i + 1) =~= (w1@ + seq![0u8] + w2@.take(
                i as int,
            )).push(w2@[i as int]));
        }
        i = i + 1;
    }
    proof {
        assert(w2@.take(w2@.len() as int) =~= w2@);
    }
    out.push(0);
    out.push(d);
    proof {
        assert(out@ =~= pair_key(w1@, w2@, d as int));
    }
    out
}

/// A strategy turning one document change into posting-key writes.
pub trait SearchableExtractor {
    /// Which posting keys one side of a change contributes.
    spec fn contributes(&self, cfg: ExtractConfig, fields: Seq<FieldContent>, k: Seq<u8>) -> bool;

    /// The attribute allow-list this posting type extracts from, or
    /// `None` for all attributes.
    fn attributes_to_extract<'a>(&self, snap: &'a IndexSnapshot) -> (r: &'a Option<Vec<Vec<u8>>>)
        ensures
            *r == snap.searchable_attributes,
    ;

    /// Attributes excluded regardless of the allow-list.
    fn attributes_to_skip<'a>(&self, snap: &'a IndexSnapshot) -> (r: &'a Vec<Vec<u8>>)
        ensures
            *r == snap.skipped_attributes,
    ;

    /// Writes the change's postings into the calling worker's cache: an
    /// add for every key of the new side, a remove for every key of the
    /// old side, resolving field ids on the way.
    fn extract_document_change(
        &self,
        cfg: &ExtractConfig,
        fields_map: &mut GlobalFieldsIdsMap,
        cache: &mut BoundedDeltaCache,
        change: &DocumentChange,
    ) -> (r: Result<(), IndexingError>)
        requires
            old(cache).wf(),
            old(fields_map).wf(),
        ensures
            final(cache).wf(),
            final(fields_map).wf(),
            r is Ok,
            forall|i: int|
                0 <= i < old(fields_map)@.len() ==> final(fields_map)@[i] == old(fields_map)@[i],
            final(fields_map)@.len() >= old(fields_map)@.len(),
            forall|k: Seq<u8>|
                #[trigger] final(cache).delta_of(k) == (DeltaModel {
                    del: if self.contributes(*cfg, old_side(*change), k) {
                        old(cache).delta_of(k).del.insert(docid_of(*change))
                    } else {
                        old(cache).delta_of(k).del
                    },
                    add: if self.contributes(*cfg, new_side(*change), k) {
                        old(cache).delta_of(k).add.insert(docid_of(*change))
                    } else {
                        old(cache).delta_of(k).add
                    },
                }),
            forall|k: Seq<u8>|
                #[trigger] final(cache).tracks_key(k) == (old(cache).tracks_key(k)
                    || self.contributes(*cfg, old_side(*change), k) || self.contributes(
                    *cfg,
                    new_side(*change),
                    k,
                )),
    ;
}

/// Single-word postings: key = normalized token.
pub struct WordDocidsExtractor;

/// Proximity postings: key = ordered token pair with its distance.
pub struct WordPairProximityDocidsExtractor;

impl SearchableExtractor for WordDocidsExtractor {
    open spec fn contributes(&self, cfg: ExtractConfig, fields: Seq<FieldContent>, k: Seq<u8>) -> bool {
        word_contrib(cfg, fields, k)
    }

    fn attributes_to_extract<'a>(&self, snap: &'a IndexSnapshot) -> (r: &'a Option<Vec<Vec<u8>>>) {
        &snap.searchable_attributes
    }

    fn attributes_to_skip<'a>(&self, snap: &'a IndexSnapshot) -> (r: &'a Vec<Vec<u8>>) {
        &snap.skipped_attributes
    }

    fn extract_document_change(
        &self,
        cfg: &ExtractConfig,
        fields_map: &mut GlobalFieldsIdsMap,
        cache: &mut BoundedDeltaCache,
        change: &DocumentChange,
    ) -> (r: Result<(), IndexingError>) {
        match change {
            DocumentChange::Insertion { docid, new_fields } => {
                extract_words_side(cfg, fields_map, cache, new_fields, *docid, true);
            },
            DocumentChange::Update { docid, old_fields, new_fields } => {
                extract_words_side(cfg, fields_map, cache, old_fields, *docid, false);
                extract_words_side(cfg, fields_map, cache, new_fields, *docid, true);
            },
            DocumentChange::Deletion { docid, old_fields } => {
                extract_words_side(cfg, fields_map, cache, old_fields, *docid, false);
            },
        }
        Ok(())
    }
}

impl SearchableExtractor for WordPairProximityDocidsExtractor {
    open spec fn contributes(&self, cfg: ExtractConfig, fields: Seq<FieldContent>, k: Seq<u8>) -> bool {
        pair_contrib(cfg, fields, k)
    }

    fn attributes_to_extract<'a>(&self, snap: &'a IndexSnapshot) -> (r: &'a Option<Vec<Vec<u8>>>) {
        &snap.searchable_attributes
    }

    fn attributes_to_skip<'a>(&self, snap: &'a IndexSnapshot) -> (r: &'a Vec<Vec<u8>>) {
        &snap.skipped_attributes
    }

    fn extract_document_change(
        &self,
        cfg: &ExtractConfig,
        fields_map: &mut GlobalFieldsIdsMap,
        cache: &mut BoundedDeltaCache,
        change: &DocumentChange,
    ) -> (r: Result<(), IndexingError>) {
        match change {
            DocumentChange::Insertion { docid, new_fields } => {
                extract_pairs_side(cfg, fields_map, cache, new_fields, *docid, true);
            },
            DocumentChange::Update { docid, old_fields, new_fields } => {
                extract_pairs_side(cfg, fields_map, cache, old_fields, *docid, false);
                extract_pairs_side(cfg, fields_map, cache, new_fields, *docid, true);
            },
            DocumentChange::Deletion { docid, old_fields } => {
                extract_pairs_side(cfg, fields_map, cache, old_fields, *docid, false);
            },
        }
        Ok(())
    }
}

/// Writes one side's single-word keys into the cache.
fn extract_words_side(
    cfg: &ExtractConfig,
    fields_map: &mut GlobalFieldsIdsMap,
    cache: &mut BoundedDeltaCache,
    fields: &Vec<FieldContent>,
    docid: u32,
    is_add: bool,
)
    requires
        old(cache).wf(),
        old(fields_map).wf(),
    ensures
        final(cache).wf(),
        final(fields_map).wf(),
        forall|i: int|
            0 <= i < old(fields_map)@.len() ==> final(fields_map)@[i] == old(fields_map)@[i],
        final(fields_map)@.len() >= old(fields_map)@.len(),
        forall|k: Seq<u8>|
            #[trigger] final(cache).delta_of(k) == (DeltaModel {
                del: if !is_add && word_contrib(*cfg, fields@, k) {
                    old(cache).delta_of(k).del.insert(docid)
                } else {
                    old(cache).delta_of(k).del
                },
                add: if is_add && word_contrib(*cfg, fields@, k) {
                    old(cache).delta_of(k).add.insert(docid)
                } else {
                    old(cache).delta_of(k).add
                },
            }),
        forall|k: Seq<u8>|
            #[trigger] final(cache).tracks_key(k) == (old(cache).tracks_key(k) || word_contrib(
                *cfg,
                fields@,
                k,
            )),
{
    let ghost cfg0 = *cfg;
    let ghost flds = fields@;
    let ghost c0 = *old(cache);
    let mut f: usize = 0;
    while f < fields.len()
        invariant
            f <= flds.len(),
            flds == fields@,
            cfg0 == *cfg,
            cache.wf(),
            fields_map.wf(),
            forall|i: int|
                0 <= i < old(fields_map)@.len() ==> fields_map@[i] == old(fields_map)@[i],
            fields_map@.len() >= old(fields_map)@.len(),
            forall|k: Seq<u8>|
                #[trigger] cache.delta_of(k) == (DeltaModel {
                    del: if !is_add && word_contrib_upto(cfg0, flds, k, f as int, 0) {
                        c0.delta_of(k).del.insert(docid)
                    } else {
                        c0.delta_of(k).del
                    },
                    add: if is_add && word_contrib_upto(cfg0, flds, k, f as int, 0) {
                        c0.delta_of(k).add.insert(docid)
                    } else {
                        c0.delta_of(k).add
                    },
                }),
            forall|k: Seq<u8>|
                #[trigger] cache.tracks_key(k) == (c0.tracks_key(k) || word_contrib_upto(
                    cfg0,
                    flds,
                    k,
                    f as int,
                    0,
                )),
        decreases flds.len() - f,
    {
        let fld = &fields[f];
        if is_eligible(cfg, &fld.name) {
            let _field_id = fields_map.resolve_or_add(&fld.name);
            let toks = tokenize(&fld.text, &cfg.tokenizer);
            let ghost tokseq = field_tokens(cfg0, flds[f as int]);
            proof {
                assert(toks@.len() == tokseq.len());
            }
            let mut t: usize = 0;
            while t < toks.len()
                invariant
                    t <= tokseq.len(),
                    toks@.len() == tokseq.len(),
                    forall|j: int| 0 <= j < tokseq.len() ==> (#[trigger] toks@[j])@ == tokseq[j],
                    0 <= f < flds.len(),
                    eligible(cfg0, flds[f as int].name@),
                    tokseq == field_tokens(cfg0, flds[f as int]),
                    flds == fields@,
                    cfg0 == *cfg,
                    cache.wf(),
                    fields_map.wf(),
                    forall|i: int|
                        0 <= i < old(fields_map)@.len() ==> fields_map@[i] == old(fields_map)@[i],
                    fields_map@.len() >= old(fields_map)@.len(),
                    forall|k: Seq<u8>|
                        #[trigger] cache.delta_of(k) == (DeltaModel {
                            del: if !is_add && word_contrib_upto(cfg0, flds, k, f as int, t as int) {
                                c0.delta_of(k).del.insert(docid)
                            } else {
                                c0.delta_of(k).del
                            },
                            add: if is_add && word_contrib_upto(cfg0, flds, k, f as int, t as int) {
                                c0.delta_of(k).add.insert(docid)
                            } else {
                                c0.delta_of(k).add
                            },
                        }),
                    forall|k: Seq<u8>|
                        #[trigger] cache.tracks_key(k) == (c0.tracks_key(k) || word_contrib_upto(
                            cfg0,
                            flds,
                            k,
                            f as int,
                            t as int,
                        )),
                decreases tokseq.len() - t,
            {
                let keyv = copy_bytes(&toks[t]);
                let ghost kv = keyv@;
                proof {
                    assert(kv == tokseq[t as int]);
                    assert(word_pos_match(cfg0, flds, kv, f as int, t as int));
                }
                if is_add {
                    cache.insert_add(keyv, docid);
                } else {
                    cache.insert_remove(keyv, docid);
                }
                proof {
                    assert forall|k: Seq<u8>|
                        #![trigger word_contrib_upto(cfg0, flds, k, f as int, t + 1)]
                        word_contrib_upto(cfg0, flds, k, f as int, t + 1) == (word_contrib_upto(
                            cfg0,
                            flds,
                            k,
                            f as int,
                            t as int,
                        ) || k == kv) by {
                        if word_contrib_upto(cfg0, flds, k, f as int, t + 1) {
                            let (f2, t2) = choose|f2: int, t2: int|
                                word_pos_match(cfg0, flds, k, f2, t2) && (f2 < f as int || (f2
                                    == f as int && t2 < t + 1));
                            if f2 == f as int && t2 == t as int {
                                assert(k == kv);
                            } else {
                                assert(word_contrib_upto(cfg0, flds, k, f as int, t as int));
                            }
                        }
                        if word_contrib_upto(cfg0, flds, k, f as int, t as int) {
                            let (f2, t2) = choose|f2: int, t2: int|
                                word_pos_match(cfg0, flds, k, f2, t2) && (f2 < f as int || (f2
                                    == f as int && t2 < t as int));
                            assert(word_pos_match(cfg0, flds, k, f2, t2) && (f2 < f as int || (f2
                                == f as int && t2 < t + 1)));
                            assert(word_contrib_upto(cfg0, flds, k, f as int, t + 1));
                        }
                        if k == kv {
                            assert(word_pos_match(cfg0, flds, k, f as int, t as int));
                            assert(word_contrib_upto(cfg0, flds, k, f as int, t + 1));
                        }
                    }
                    assert forall|k: Seq<u8>|
                        #[trigger] cache.delta_of(k) == (DeltaModel {
                            del: if !is_add && word_contrib_upto(cfg0, flds, k, f as int, t + 1) {
                                c0.delta_of(k).del.insert(docid)
                            } else {
                                c0.delta_of(k).del
                            },
                            add: if is_add && word_contrib_upto(cfg0, flds, k, f as int, t + 1) {
                                c0.delta_of(k).add.insert(docid)
                            } else {
                                c0.delta_of(k).add
                            },
                        }) by {
                        if k == kv && word_contrib_upto(cfg0, flds, k, f as int, t as int) {
                            assert(cache.delta_of(k) =~= (DeltaModel {
                                del: if !is_add {
                                    c0.delta_of(k).del.insert(docid)
                                } else {
                                    c0.delta_of(k).del
                                },
                                add: if is_add {
                                    c0.delta_of(k).add.insert(docid)
                                } else {
                                    c0.delta_of(k).add
                                },
                            }));
                        }
                    }
                }
                t = t + 1;
            }
            proof {
                assert forall|k: Seq<u8>|
                    #![trigger word_contrib_upto(cfg0, flds, k, f + 1, 0)]
                    word_contrib_upto(cfg0, flds, k, f + 1, 0) == word_contrib_upto(
                        cfg0,
                        flds,
                        k,
                        f as int,
                        tokseq.len() as int,
                    ) by {
                    if word_contrib_upto(cfg0, flds, k, f + 1, 0) {
                        let (f2, t2) = choose|f2: int, t2: int|
                            word_pos_match(cfg0, flds, k, f2, t2) && (f2 < f + 1 || (f2 == f + 1
                                && t2 < 0));
                        if f2 == f as int {
                            assert(t2 < field_tokens(cfg0, flds[f2]).len());
                        }
                        assert(word_contrib_upto(cfg0, flds, k, f as int, tokseq.len() as int));
                    }
                    if word_contrib_upto(cfg0, flds, k, f as int, tokseq.len() as int) {
                        let (f2, t2) = choose|f2: int, t2: int|
                            word_pos_match(cfg0, flds, k, f2, t2) && (f2 < f as int || (f2
                                == f as int && t2 < tokseq.len()));
                        assert(word_pos_match(cfg0, flds, k, f2, t2) && f2 < f + 1);
                        assert(word_contrib_upto(cfg0, flds, k, f + 1, 0));
                    }
                }
            }
        } else {
            proof {
                assert forall|k: Seq<u8>|
                    #![trigger word_contrib_upto(cfg0, flds, k, f + 1, 0)]
                    word_contrib_upto(cfg0, flds, k, f + 1, 0) == word_contrib_upto(
                        cfg0,
                        flds,
                        k,
                        f as int,
                        0,
                    ) by {
                    if word_contrib_upto(cfg0, flds, k, f + 1, 0) {
                        let (f2, t2) = choose|f2: int, t2: int|
                            word_pos_match(cfg0, flds, k, f2, t2) && (f2 < f + 1 || (f2 == f + 1
                                && t2 < 0));
                        assert(f2 != f as int);
                        assert(word_contrib_upto(cfg0, flds, k, f as int, 0));
                    }
                    if word_contrib_upto(cfg0, flds, k, f as int, 0) {
                        let (f2, t2) = choose|f2: int, t2: int|
                            word_pos_match(cfg0, flds, k, f2, t2) && (f2 < f as int || (f2
                                == f as int && t2 < 0));
                        assert(word_pos_match(cfg0, flds, k, f2, t2) && f2 < f + 1);
                        assert(word_contrib_upto(cfg0, flds, k, f + 1, 0));
                    }
                }
            }
        }
        f = f + 1;
    }
    proof {
        assert forall|k: Seq<u8>|
            #![trigger word_contrib_upto(cfg0, flds, k, flds.len() as int, 0)]
            word_contrib_upto(cfg0, flds, k, flds.len() as int, 0) == word_contrib(
                cfg0,
                flds,
                k,
            ) by {
            if word_contrib_upto(cfg0, flds, k, flds.len() as int, 0) {
                let (f2, t2) = choose|f2: int, t2: int|
                    word_pos_match(cfg0, flds, k, f2, t2) && (f2 < flds.len() || (f2 == flds.len()
                        && t2 < 0));
                assert(word_contrib(cfg0, flds, k));
            }
            if word_contrib(cfg0, flds, k) {
                let (f2, t2) = choose|f2: int, t2: int| word_pos_match(cfg0, flds, k, f2, t2);
                assert(word_pos_match(cfg0, flds, k, f2, t2) && f2 < flds.len());
                assert(word_contrib_upto(cfg0, flds, k, flds.len() as int, 0));
            }
        }
    }
}

/// Writes one side's proximity-pair keys into the cache.
fn extract_pairs_side(
    cfg: &ExtractConfig,
    fields_map: &mut GlobalFieldsIdsMap,
    cache: &mut BoundedDeltaCache,
    fields: &Vec<FieldContent>,
    docid: u32,
    is_add: bool,
)
    requires
        old(cache).wf(),
        old(fields_map).wf(),
    ensures
        final(cache).wf(),
        final(fields_map).wf(),
        forall|i: int|
            0 <= i < old(fields_map)@.len() ==> final(fields_map)@[i] == old(fields_map)@[i],
        final(fields_map)@.len() >= old(fields_map)@.len(),
        forall|k: Seq<u8>|
            #[trigger] final(cache).delta_of(k) == (DeltaModel {
                del: if !is_add && pair_contrib(*cfg, fields@, k) {
                    old(cache).delta_of(k).del.insert(docid)
                } else {
                    old(cache).delta_of(k).del
                },
                add: if is_add && pair_contrib(*cfg, fields@, k) {
                    old(cache).delta_of(k).add.insert(docid)
                } else {
                    old(cache).delta_of(k).add
                },
            }),
        forall|k: Seq<u8>|
            #[trigger] final(cache).tracks_key(k) == (old(cache).tracks_key(k) || pair_contrib(
                *cfg,
                fields@,
                k,
            )),
{
    let ghost cfg0 = *cfg;
    let ghost flds = fields@;
    let ghost c0 = *old(cache);
    let mut f: usize = 0;
    while f < fields.len()
        invariant
            f <= flds.len(),
            flds == fields@,
            cfg0 == *cfg,
            cache.wf(),
            fields_map.wf(),
            forall|i: int|
                0 <= i < old(fields_map)@.len() ==> fields_map@[i] == old(fields_map)@[i],
            fields_map@.len() >= old(fields_map)@.len(),
            forall|k: Seq<u8>|
                #[trigger] cache.delta_of(k) == (DeltaModel {
                    del: if !is_add && pair_contrib_upto(cfg0, flds, k, f as int, 0, 0) {
                        c0.delta_of(k).del.insert(docid)
                    } else {
                        c0.delta_of(k).del
                    },
                    add: if is_add && pair_contrib_upto(cfg0, flds, k, f as int, 0, 0) {
                        c0.delta_of(k).add.insert(docid)
                    } else {
                        c0.delta_of(k).add
                    },
                }),
            forall|k: Seq<u8>|
                #[trigger] cache.tracks_key(k) == (c0.tracks_key(k) || pair_contrib_upto(
                    cfg0,
                    flds,
                    k,
                    f as int,
                    0,
                    0,
                )),
        decreases flds.len() - f,
    {
        let fld = &fields[f];
        if is_eligible(cfg, &fld.name) {
            let _field_id = fields_map.resolve_or_add(&fld.name);
            let toks = tokenize(&fld.text, &cfg.tokenizer);
            let ghost tokseq = field_tokens(cfg0, flds[f as int]);
            proof {
                assert(toks@.len() == tokseq.len());
                assert forall|k: Seq<u8>|
                    #![trigger pair_contrib_upto(cfg0, flds, k, f as int, 0, 1)]
                    pair_contrib_upto(cfg0, flds, k, f as int, 0, 1) == pair_contrib_upto(
                        cfg0,
                        flds,
                        k,
                        f as int,
                        0,
                        0,
                    ) by {
                    if pair_contrib_upto(cfg0, flds, k, f as int, 0, 1) {
                        let (f2, u1, u2) = choose|f2: int, u1: int, u2: int|
                            pair_pos_match(cfg0, flds, k, f2, u1, u2) && (f2 < f as int || (f2
                                == f as int && (u1 < 0 || (u1 == 0 && u2 < 1))));
                        assert(f2 < f as int);
                        assert(pair_contrib_upto(cfg0, flds, k, f as int, 0, 0));
                    }
                    if pair_contrib_upto(cfg0, flds, k, f as int, 0, 0) {
                        let (f2, u1, u2) = choose|f2: int, u1: int, u2: int|
                            pair_pos_match(cfg0, flds, k, f2, u1, u2) && (f2 < f as int || (f2
                                == f as int && (u1 < 0 || (u1 == 0 && u2 < 0))));
                        assert(pair_pos_match(cfg0, flds, k, f2, u1, u2) && f2 < f as int);
                        assert(pair_contrib_upto(cfg0, flds, k, f as int, 0, 1));
                    }
                }
            }
            let mut t1: usize = 0;
            while t1 < toks.len()
                invariant
                    t1 <= tokseq.len(),
                    toks@.len() == tokseq.len(),
                    forall|j: int| 0 <= j < tokseq.len() ==> (#[trigger] toks@[j])@ == tokseq[j],
                    0 <= f < flds.len(),
                    eligible(cfg0, flds[f as int].name@),
                    tokseq == field_tokens(cfg0, flds[f as int]),
                    flds == fields@,
                    cfg0 == *cfg,
                    cache.wf(),
                    fields_map.wf(),
                    forall|i: int|
                        0 <= i < old(fields_map)@.len() ==> fields_map@[i] == old(fields_map)@[i],
                    fields_map@.len() >= old(fields_map)@.len(),
                    forall|k: Seq<u8>|
                        #[trigger] cache.delta_of(k) == (DeltaModel {
                            del: if !is_add && pair_contrib_upto(
                                cfg0,
                                flds,
                                k,
                                f as int,
                                t1 as int,
                                t1 + 1,
                            ) {
                                c0.delta_of(k).del.insert(docid)
                            } else {
                                c0.delta_of(k).del
                            },
                            add: if is_add && pair_contrib_upto(
                                cfg0,
                                flds,
                                k,
                                f as int,
                                t1 as int,
                                t1 + 1,
                            ) {
                                c0.delta_of(k).add.insert(docid)
                            } else {
                                c0.delta_of(k).add
                            },
                        }),
                    forall|k: Seq<u8>|
                        #[trigger] cache.tracks_key(k) == (c0.tracks_key(k) || pair_contrib_upto(
                            cfg0,
                            flds,
                            k,
                            f as int,
                            t1 as int,
                            t1 + 1,
                        )),
                decreases tokseq.len() - t1,
            {
                let t2_end = if toks.len() - t1 - 1 > MAX_PAIR_DISTANCE {
                    t1 + 1 + MAX_PAIR_DISTANCE
                } else {
                    toks.len()
                };
                proof {
                    assert(t2_end <= tokseq.len());
                    assert(t2_end <= t1 + 1 + MAX_PAIR_DISTANCE);
                    assert(t2_end >= t1 + 1 || t2_end == tokseq.len());
                }
                let mut t2: usize = t1 + 1;
                while t2 < t2_end
                    invariant
                        t1 < tokseq.len(),
                        t1 + 1 <= t2 <= t2_end,
                        t2_end <= tokseq.len(),
                        t2_end <= t1 + 1 + MAX_PAIR_DISTANCE,
                        t2_end == t1 + 1 + MAX_PAIR_DISTANCE || t2_end == tokseq.len(),
                        toks@.len() == tokseq.len(),
                        forall|j: int|
                            0 <= j < tokseq.len() ==> (#[trigger] toks@[j])@ == tokseq[j],
                        0 <= f < flds.len(),
                        eligible(cfg0, flds[f as int].name@),
                        tokseq == field_tokens(cfg0, flds[f as int]),
                        flds == fields@,
                        cfg0 == *cfg,
                        cache.wf(),
                        fields_map.wf(),
                        forall|i: int|
                            0 <= i < old(fields_map)@.len() ==> fields_map@[i] == old(
                                fields_map,
                            )@[i],
                        fields_map@.len() >= old(fields_map)@.len(),
                        forall|k: Seq<u8>|
                            #[trigger] cache.delta_of(k) == (DeltaModel {
                                del: if !is_add && pair_contrib_upto(
                                    cfg0,
                                    flds,
                                    k,
                                    f as int,
                                    t1 as int,
                                    t2 as int,
                                ) {
                                    c0.delta_of(k).del.insert(docid)
                                } else {
                                    c0.delta_of(k).del
                                },
                                add: if is_add && pair_contrib_upto(
                                    cfg0,
                                    flds,
                                    k,
                                    f as int,
                                    t1 as int,
                                    t2 as int,
                                ) {
                                    c0.delta_of(k).add.insert(docid)
                                } else {
                                    c0.delta_of(k).add
                                },
                            }),
                        forall|k: Seq<u8>|
                            #[trigger] cache.tracks_key(k) == (c0.tracks_key(k)
                                || pair_contrib_upto(
                                cfg0,
                                flds,
                                k,
                                f as int,
                                t1 as int,
                                t2 as int,
                            )),
                    decreases t2_end - t2,
                {
                    let dist = (t2 - t1) as u8;
                    let keyv = make_pair_key(&toks[t1], &toks[t2], dist);
                    let ghost kv = keyv@;
                    proof {
                        assert(kv == pair_key(tokseq[t1 as int], tokseq[t2 as int], t2 - t1));
                        assert(pair_pos_match(cfg0, flds, kv, f as int, t1 as int, t2 as int));
                    }
                    if is_add {
                        cache.insert_add(keyv, docid);
                    } else {
                        cache.insert_remove(keyv, docid);
                    }
                    proof {
                        assert forall|k: Seq<u8>|
                            #![trigger pair_contrib_upto(cfg0, flds, k, f as int, t1 as int, t2 + 1)]
                            pair_contrib_upto(cfg0, flds, k, f as int, t1 as int, t2 + 1) == (
                            pair_contrib_upto(cfg0, flds, k, f as int, t1 as int, t2 as int) || k
                                == kv) by {
                            if pair_contrib_upto(cfg0, flds, k, f as int, t1 as int, t2 + 1) {
                                let (f2, u1, u2) = choose|f2: int, u1: int, u2: int|
                                    pair_pos_match(cfg0, flds, k, f2, u1, u2) && (f2 < f as int
                                        || (f2 == f as int && (u1 < t1 as int || (u1 == t1 as int
                                        && u2 < t2 + 1))));
                                if f2 == f as int && u1 == t1 as int && u2 == t2 as int {
                                    assert(k == kv);
                                } else {
                                    assert(pair_contrib_upto(
                                        cfg0,
                                        flds,
                                        k,
                                        f as int,
                                        t1 as int,
                                        t2 as int,
                                    ));
                                }
                            }
                            if pair_contrib_upto(cfg0, flds, k, f as int, t1 as int, t2 as int) {
                                let (f2, u1, u2) = choose|f2: int, u1: int, u2: int|
                                    pair_pos_match(cfg0, flds, k, f2, u1, u2) && (f2 < f as int
                                        || (f2 == f as int && (u1 < t1 as int || (u1 == t1 as int
                                        && u2 < t2 as int))));
                                assert(pair_pos_match(cfg0, flds, k, f2, u1, u2) && (f2 < f as int
                                    || (f2 == f as int && (u1 < t1 as int || (u1 == t1 as int && u2
                                    < t2 + 1)))));
                                assert(pair_contrib_upto(cfg0, flds, k, f as int, t1 as int, t2
                                    + 1));
                            }
                            if k == kv {
                                assert(pair_pos_match(
                                    cfg0,
                                    flds,
                                    k,
                                    f as int,
                                    t1 as int,
                                    t2 as int,
                                ));
                                assert(pair_contrib_upto(cfg0, flds, k, f as int, t1 as int, t2
                                    + 1));
                            }
                        }
                        assert forall|k: Seq<u8>|
                            #[trigger] cache.delta_of(k) == (DeltaModel {
                                del: if !is_add && pair_contrib_upto(
                                    cfg0,
                                    flds,
                                    k,
                                    f as int,
                                    t1 as int,
                                    t2 + 1,
                                ) {
                                    c0.delta_of(k).del.insert(docid)
                                } else {
                                    c0.delta_of(k).del
                                },
                                add: if is_add && pair_contrib_upto(
                                    cfg0,
                                    flds,
                                    k,
                                    f as int,
                                    t1 as int,
                                    t2 + 1,
                                ) {
                                    c0.delta_of(k).add.insert(docid)
                                } else {
                                    c0.delta_of(k).add
                                },
                            }) by {
                            if k == kv && pair_contrib_upto(
                                cfg0,
                                flds,
                                k,
                                f as int,
                                t1 as int,
                                t2 as int,
                            ) {
                                assert(cache.delta_of(k) =~= (DeltaModel {
                                    del: if !is_add {
                                        c0.delta_of(k).del.insert(docid)
                                    } else {
                                        c0.delta_of(k).del
                                    },
                                    add: if is_add {
                                        c0.delta_of(k).add.insert(docid)
                                    } else {
                                        c0.delta_of(k).add
                                    },
                                }));
                            }
                        }
                    }
                    t2 = t2 + 1;
                }
                proof {
                    assert forall|k: Seq<u8>|
                        #![trigger pair_contrib_upto(cfg0, flds, k, f as int, t1 as int, t2_end as int)]
                        pair_contrib_upto(cfg0, flds, k, f as int, t1 + 1, t1 + 2)
                            == pair_contrib_upto(
                            cfg0,
                            flds,
                            k,
                            f as int,
                            t1 as int,
                            t2_end as int,
                        ) by {
                        if pair_contrib_upto(cfg0, flds, k, f as int, t1 + 1, t1 + 2) {
                            let (f2, u1, u2) = choose|f2: int, u1: int, u2: int|
                                pair_pos_match(cfg0, flds, k, f2, u1, u2) && (f2 < f as int || (f2
                                    == f as int && (u1 < t1 + 1 || (u1 == t1 + 1 && u2 < t1
                                    + 2))));
                            if f2 == f as int {
                                if u1 == t1 + 1 {
                                    assert(u2 > u1);
                                    assert(false);
                                } else if u1 == t1 as int {
                                    assert(u2 <= t1 + MAX_PAIR_DISTANCE);
                                    assert(u2 < tokseq.len());
                                    assert(u2 < t2_end as int);
                                }
                            }
                            assert(pair_contrib_upto(
                                cfg0,
                                flds,
                                k,
                                f as int,
                                t1 as int,
                                t2_end as int,
                            ));
                        }
                        if pair_contrib_upto(cfg0, flds, k, f as int, t1 as int, t2_end as int) {
                            let (f2, u1, u2) = choose|f2: int, u1: int, u2: int|
                                pair_pos_match(cfg0, flds, k, f2, u1, u2) && (f2 < f as int || (f2
                                    == f as int && (u1 < t1 as int || (u1 == t1 as int && u2
                                    < t2_end as int))));
                            assert(pair_pos_match(cfg0, flds, k, f2, u1, u2) && (f2 < f as int
                                || (f2 == f as int && u1 < t1 + 1)));
                            assert(pair_contrib_upto(cfg0, flds, k, f as int, t1 + 1, t1 + 2));
                        }
                    }
                }
                t1 = t1 + 1;
            }
            proof {
                assert forall|k: Seq<u8>|
                    #![trigger pair_contrib_upto(cfg0, flds, k, f + 1, 0, 0)]
                    pair_contrib_upto(cfg0, flds, k, f + 1, 0, 0) == pair_contrib_upto(
                        cfg0,
                        flds,
                        k,
                        f as int,
                        t1 as int,
                        t1 + 1,
                    ) by {
                    if pair_contrib_upto(cfg0, flds, k, f + 1, 0, 0) {
                        let (f2, u1, u2) = choose|f2: int, u1: int, u2: int|
                            pair_pos_match(cfg0, flds, k, f2, u1, u2) && (f2 < f + 1 || (f2 == f
                                + 1 && (u1 < 0 || (u1 == 0 && u2 < 0))));
                        if f2 == f as int {
                            assert(u1 < u2 < field_tokens(cfg0, flds[f2]).len());
                            assert(u1 < t1 as int);
                        }
                        assert(pair_contrib_upto(cfg0, flds, k, f as int, t1 as int, t1 + 1));
                    }
                    if pair_contrib_upto(cfg0, flds, k, f as int, t1 as int, t1 + 1) {
                        let (f2, u1, u2) = choose|f2: int, u1: int, u2: int|
                            pair_pos_match(cfg0, flds, k, f2, u1, u2) && (f2 < f as int || (f2
                                == f as int && (u1 < t1 as int || (u1 == t1 as int && u2 < t1
                                + 1))));
                        assert(pair_pos_match(cfg0, flds, k, f2, u1, u2) && f2 < f + 1);
                        assert(pair_contrib_upto(cfg0, flds, k, f + 1, 0, 0));
                    }
                }
            }
        } else {
            proof {
                assert forall|k: Seq<u8>|
                    #![trigger pair_contrib_upto(cfg0, flds, k, f + 1, 0, 0)]
                    pair_contrib_upto(cfg0, flds, k, f + 1, 0, 0) == pair_contrib_upto(
                        cfg0,
                        flds,
                        k,
                        f as int,
                        0,
                        0,
                    ) by {
                    if pair_contrib_upto(cfg0, flds, k, f + 1, 0, 0) {
                        let (f2, u1, u2) = choose|f2: int, u1: int, u2: int|
                            pair_pos_match(cfg0, flds, k, f2, u1, u2) && (f2 < f + 1 || (f2 == f
                                + 1 && (u1 < 0 || (u1 == 0 && u2 < 0))));
                        assert(f2 != f as int);
                        assert(pair_contrib_upto(cfg0, flds, k, f as int, 0, 0));
                    }
                    if pair_contrib_upto(cfg0, flds, k, f as int, 0, 0) {
                        let (f2, u1, u2) = choose|f2: int, u1: int, u2: int|
                            pair_pos_match(cfg0, flds, k, f2, u1, u2) && (f2 < f as int || (f2
                                == f as int && (u1 < 0 || (u1 == 0 && u2 < 0))));
                        assert(pair_pos_match(cfg0, flds, k, f2, u1, u2) && f2 < f + 1);
                        assert(pair_contrib_upto(cfg0, flds, k, f + 1, 0, 0));
                    }
                }
            }
        }
        f = f + 1;
    }
    proof {
        assert forall|k: Seq<u8>|
            #![trigger pair_contrib_upto(cfg0, flds, k, flds.len() as int, 0, 0)]
            pair_contrib_upto(cfg0, flds, k, flds.len() as int, 0, 0) == pair_contrib(
                cfg0,
                flds,
                k,
            ) by {
            if pair_contrib_upto(cfg0, flds, k, flds.len() as int, 0, 0) {
                let (f2, u1, u2) = choose|f2: int, u1: int, u2: int|
                    pair_pos_match(cfg0, flds, k, f2, u1, u2) && (f2 < flds.len() || (f2
                        == flds.len() && (u1 < 0 || (u1 == 0 && u2 < 0))));
                assert(pair_contrib(cfg0, flds, k));
            }
            if pair_contrib(cfg0, flds, k) {
                let (f2, u1, u2) = choose|f2: int, u1: int, u2: int|
                    pair_pos_match(cfg0, flds, k, f2, u1, u2);
                assert(pair_pos_match(cfg0, flds, k, f2, u1, u2) && f2 < flds.len());
                assert(pair_contrib_upto(cfg0, flds, k, flds.len() as int, 0, 0));
            }
        }
    }
}

} // verus!
