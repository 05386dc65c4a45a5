//! Lexicographic byte order for posting keys.
//!
//! Keys sort by byte order of their normalized representation; the merge
//! stage and the in-memory caches both rely on this single total order.

use vstd::prelude::*;

verus! {

/// Strict lexicographic order on byte sequences: `a` comes before `b`.
pub open spec fn lex_lt(a: Seq<u8>, b: Seq<u8>) -> bool
    decreases a.len(),
{
    if b.len() == 0 {
        false
    } else if a.len() == 0 {
        true
    } else if a[0] < b[0] {
        true
    } else if a[0] > b[0] {
        false
    } else {
        lex_lt(a.drop_first(), b.drop_first())
    }
}

pub proof fn lemma_lex_irreflexive(a: Seq<u8>)
    ensures
        !lex_lt(a, a),
    decreases a.len(),
{
    if a.len() > 0 {
        lemma_lex_irreflexive(a.drop_first());
    }
}

pub proof fn lemma_lex_asymmetric(a: Seq<u8>, b: Seq<u8>)
    requires
        lex_lt(a, b),
    ensures
        !lex_lt(b, a),
        a != b,
    decreases a.len(),
{
    if a.len() > 0 && b.len() > 0 && a[0] == b[0] {
        lemma_lex_asymmetric(a.drop_first(), b.drop_first());
        assert(a != b) by {
            if a == b {
                assert(a.drop_first() == b.drop_first());
            }
        }
    }
}

pub proof fn lemma_lex_transitive(a: Seq<u8>, b: Seq<u8>, c: Seq<u8>)
    requires
        lex_lt(a, b),
        lex_lt(b, c),
    ensures
        lex_lt(a, c),
    decreases a.len(),
{
    if a.len() > 0 && b.len() > 0 && c.len() > 0 && a[0] == b[0] && b[0] == c[0] {
        lemma_lex_transitive(a.drop_first(), b.drop_first(), c.drop_first());
    }
}

/// Dropping an equal prefix of both keys does not change how they compare.
pub proof fn lemma_lex_skip_prefix(a: Seq<u8>, b: Seq<u8>, i: int)
    requires
        0 <= i <= a.len(),
        i <= b.len(),
        a.subrange(0, i) == b.subrange(0, i),
    ensures
        lex_lt(a, b) == lex_lt(a.skip(i), b.skip(i)),
    decreases i,
{
    if i == 0 {
        assert(a.skip(0) =~= a);
        assert(b.skip(0) =~= b);
    } else {
        assert(a.len() > 0 && b.len() > 0);
        assert(a.subrange(0, i)[0] == a[0]);
        assert(b.subrange(0, i)[0] == b[0]);
        assert(a[0] == b[0]);
        assert(a.drop_first().subrange(0, i - 1) =~= b.drop_first().subrange(0, i - 1)) by {
            assert forall|j: int| 0 <= j < i - 1 implies a.drop_first()[j] == b.drop_first()[j] by {
                assert(a.drop_first()[j] == a[j + 1]);
                assert(b.drop_first()[j] == b[j + 1]);
                assert(a[j + 1] == a.subrange(0, i)[j + 1]);
                assert(b[j + 1] == b.subrange(0, i)[j + 1]);
            }
        }
        lemma_lex_skip_prefix(a.drop_first(), b.drop_first(), i - 1);
        assert(a.drop_first().skip(i - 1) =~= a.skip(i));
        assert(b.drop_first().skip(i - 1) =~= b.skip(i));
    }
}

/// Result of comparing two posting keys.
#[derive(PartialEq, Eq, Structural, Clone, Copy, Debug)]
pub enum KeyOrder {
    Less,
    Equal,
    Greater,
}

/// Compares two keys in lexicographic byte order.
pub fn key_compare(a: &Vec<u8>, b: &Vec<u8>) -> (r: KeyOrder)
    ensures
        r is Less <==> lex_lt(a@, b@),
        r is Equal <==> a@ == b@,
        r is Greater <==> lex_lt(b@, a@),
{
    let a_len = a.len();
    let b_len = b.len();
    let n = if a_len < b_len {
        a_len
    } else {
        b_len
    };
    let mut i: usize = 0;
    while i < n
        invariant
            i <= n,
            n <= a@.len(),
            n <= b@.len(),
            a@.subrange(0, i as int) == b@.subrange(0, i as int),
        decreases n - i,
    {
        let x = a[i];
        let y = b[i];
        if x < y {
            proof {
                lemma_lex_skip_prefix(a@, b@, i as int);
                assert(lex_lt(a@.skip(i as int), b@.skip(i as int)));
                lemma_lex_asymmetric(a@, b@);
            }
            return KeyOrder::Less;
        } else if x > y {
            proof {
                lemma_lex_skip_prefix(b@, a@, i as int);
                assert(lex_lt(b@.skip(i as int), a@.skip(i as int)));
                lemma_lex_asymmetric(b@, a@);
            }
            return KeyOrder::Greater;
        }
        proof {
            assert(a@.subrange(0, i + 1) =~= b@.subrange(0, i + 1)) by {
                assert forall|j: int| 0 <= j < i + 1 implies #[trigger] a@.subrange(0, i + 1)[j]
                    == b@.subrange(0, i + 1)[j] by {
                    if j < i {
                        assert(a@.subrange(0, i as int)[j] == b@.subrange(0, i as int)[j]);
                    }
                }
            }
        }
        i = i + 1;
    }
    if a_len == b_len {
        proof {
            assert(a@ =~= b@) by {
                assert forall|j: int| 0 <= j < a@.len() implies a@[j] == b@[j] by {
                    assert(a@.subrange(0, n as int)[j] == b@.subrange(0, n as int)[j]);
                }
            }
            lemma_lex_irreflexive(a@);
        }
        KeyOrder::Equal
    } else if a_len < b_len {
        proof {
            lemma_lex_skip_prefix(a@, b@, n as int);
            assert(a@.skip(n as int).len() == 0);
            assert(b@.skip(n as int).len() > 0);
            assert(lex_lt(a@.skip(n as int), b@.skip(n as int)));
            lemma_lex_asymmetric(a@, b@);
        }
        KeyOrder::Less
    } else {
        proof {
            lemma_lex_skip_prefix(b@, a@, n as int);
            assert(b@.skip(n as int).len() == 0);
            assert(a@.skip(n as int).len() > 0);
            assert(lex_lt(b@.skip(n as int), a@.skip(n as int)));
            lemma_lex_asymmetric(b@, a@);
        }
        KeyOrder::Greater
    }
}

/// Byte-for-byte equality of two keys.
pub fn bytes_equal(a: &Vec<u8>, b: &Vec<u8>) -> (r: bool)
    ensures
        r == (a@ == b@),
{
    let ord = key_compare(a, b);
    match ord {
        KeyOrder::Equal => true,
        KeyOrder::Less => false,
        KeyOrder::Greater => false,
    }
}

/// An owned copy of a key.
pub fn copy_bytes(a: &Vec<u8>) -> (r: Vec<u8>)
    ensures
        r@ == a@,
{
    let mut out: Vec<u8> = Vec::new();
    let mut i: usize = 0;
    while i < a.len()
        invariant
            i <= a@.len(),
            out@ == a@.take(i as int),
        decreases a@.len() - i,
    {
        let b = a[i];
        out.push(b);
        proof {
            assert(a@.take(i + 1) =~= a@.take(i as int).push(a@[i as int]));
        }
        i = i + 1;
    }
    proof {
        assert(a@.take(a@.len() as int) =~= a@);
    }
    out
}

} // verus!
