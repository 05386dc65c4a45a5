//! Tokenization of field text into normalized tokens.
//!
//! The segmentation here is deliberately simple — the linguistic rules
//! of a full tokenizer are an outside collaborator's concern — but it is
//! fully specified: words are the maximal runs of non-separator bytes,
//! normalized to ASCII lower case, and positions beyond the
//! per-attribute cutoff are dropped, never erroring.

use vstd::prelude::*;

verus! {

/// Resolved tokenizer configuration: separator bytes and the maximum
/// number of token positions kept per attribute.
pub struct TokenizerConfig {
    pub separators: Vec<u8>,
    pub max_positions: usize,
}

pub open spec fn is_separator(b: u8, seps: Seq<u8>) -> bool {
    seps.contains(b)
}

/// ASCII lower-case normalization of one byte.
pub open spec fn lower_byte(b: u8) -> u8 {
    if 65 <= b <= 90 {
        (b + 32) as u8
    } else {
        b
    }
}

/// One scanning step: a separator closes the pending word, any other
/// byte extends it, normalized.
pub open spec fn scan_step(acc: (Seq<Seq<u8>>, Seq<u8>), b: u8, seps: Seq<u8>) -> (
    Seq<Seq<u8>>,
    Seq<u8>,
) {
    if is_separator(b, seps) {
        if acc.1.len() == 0 {
            acc
        } else {
            (acc.0.push(acc.1), Seq::<u8>::empty())
        }
    } else {
        (acc.0, acc.1.push(lower_byte(b)))
    }
}

/// Scanning a text from the left: the words already closed, and the
/// pending word.
pub open spec fn scan(text: Seq<u8>, seps: Seq<u8>) -> (Seq<Seq<u8>>, Seq<u8>)
    decreases text.len(),
{
    if text.len() == 0 {
        (Seq::<Seq<u8>>::empty(), Seq::<u8>::empty())
    } else {
        scan_step(scan(text.drop_last(), seps), text.last(), seps)
    }
}

/// All normalized words of a text, in order of appearance; a word's
/// index is its token position.
pub open spec fn spec_words(text: Seq<u8>, seps: Seq<u8>) -> Seq<Seq<u8>> {
    let s = scan(text, seps);
    if s.1.len() == 0 {
        s.0
    } else {
        s.0.push(s.1)
    }
}

/// The words kept after the per-attribute position cutoff: positions
/// `max_positions` and beyond contribute nothing.
pub open spec fn spec_tokens(text: Seq<u8>, seps: Seq<u8>, max_positions: int) -> Seq<Seq<u8>> {
    let ws = spec_words(text, seps);
    if ws.len() <= max_positions {
        ws
    } else {
        ws.take(max_positions)
    }
}

fn byte_is_separator(b: u8, seps: &Vec<u8>) -> (r: bool)
    ensures
        r == is_separator(b, seps@),
{
    let mut i: usize = 0;
    while i < seps.len()
        invariant
            i <= seps@.len(),
            forall|j: int| 0 <= j < i ==> seps@[j] != b,
        decreases seps@.len() - i,
    {
        if seps[i] == b {
            proof {
                assert(seps@[i as int] == b);
                assert(seps@.contains(b));
            }
            return true;
        }
        i = i + 1;
    }
    proof {
        assert(!seps@.contains(b)) by {
            if seps@.contains(b) {
                let j = choose|j: int| 0 <= j < seps@.len() && seps@[j] == b;
            }
        }
    }
    false
}

fn lower(b: u8) -> (r: u8)
    ensures
        r == lower_byte(b),
{
    if b >= 65 && b <= 90 {
        b + 32
    } else {
        b
    }
}

/// Segments `text` into normalized tokens, keeping at most
/// `cfg.max_positions` of them.
pub fn tokenize(text: &Vec<u8>, cfg: &TokenizerConfig) -> (r: Vec<Vec<u8>>)
    ensures
        r@.len() == spec_tokens(text@, cfg.separators@, cfg.max_positions as int).len(),
        forall|t: int|
            0 <= t < r@.len() ==> r@[t]@ == spec_tokens(
                text@,
                cfg.separators@,
                cfg.max_positions as int,
            )[t],
{
    let ghost seps = cfg.separators@;
    let mut words: Vec<Vec<u8>> = Vec::new();
    let ghost mut ws: Seq<Seq<u8>> = Seq::<Seq<u8>>::empty();
    let mut cur: Vec<u8> = Vec::new();
    let mut i: usize = 0;
    proof {
        assert(text@.take(0) =~= Seq::<u8>::empty());
    }
    while i < text.len()
        invariant
            i <= text@.len(),
            seps == cfg.separators@,
            words@.len() == ws.len(),
            forall|t: int| 0 <= t < ws.len() ==> (#[trigger] words@[t])@ == ws[t],
            ws == scan(text@.take(i as int), seps).0,
            cur@ == scan(text@.take(i as int), seps).1,
        decreases text@.len() - i,
    {
        let b = text[i];
        proof {
            assert(text@.take(i + 1).drop_last() =~= text@.take(i as int));
            assert(text@.take(i + 1).last() == text@[i as int]);
        }
        if byte_is_separator(b, &cfg.separators) {
            if cur.len() > 0 {
                let ghost wsv = cur@;
                words.push(cur);
                cur = Vec::new();
                proof {
                    ws = ws.push(wsv);
                }
            }
        } else {
            cur.push(lower(b));
        }
        i = i + 1;
    }
    proof {
        assert(text@.take(text@.len() as int) =~= text@);
    }
    if cur.len() > 0 {
        let ghost wsv = cur@;
        words.push(cur);
        proof {
            ws = ws.push(wsv);
        }
    }
    proof {
        assert(ws == spec_words(text@, seps));
    }
    if words.len() > cfg.max_positions {
        let ghost w0 = words@;
        words.truncate(cfg.max_positions);
        proof {
            assert(words@ == w0.subrange(0, cfg.max_positions as int));
            assert forall|t: int| 0 <= t < words@.len() implies (#[trigger] words@[t])@
                == spec_tokens(text@, seps, cfg.max_positions as int)[t] by {
                assert(words@[t] == w0[t]);
                assert(ws.take(cfg.max_positions as int)[t] == ws[t]);
            }
        }
    }
    words
}

} // verus!
