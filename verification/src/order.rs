//! Byte-lexicographic ordering of keys.
//!
//! Keys are UTF-8 strings, and the store orders them by the lexicographic
//! order of their UTF-8 byte encodings.  This module defines that order on
//! byte sequences, lifts it to character sequences, proves that it is a
//! strict total order, and provides executable comparisons.
use vstd::prelude::*;
use vstd::utf8::encode_utf8;
use vstd::utf8::encode_utf8_decode_utf8;

verus! {

/// Strict lexicographic order on byte sequences.
pub open spec fn lex_lt(a: Seq<u8>, b: Seq<u8>) -> bool
    decreases a.len(),
{
    if b.len() == 0 {
        false
    } else if a.len() == 0 {
        true
    } else if a[0] != b[0] {
        a[0] < b[0]
    } else {
        lex_lt(a.drop_first(), b.drop_first())
    }
}

/// `p` is a prefix of `a`.
pub open spec fn lex_prefix(p: Seq<u8>, a: Seq<u8>) -> bool {
    p.len() <= a.len() && a.subrange(0, p.len() as int) == p
}

pub proof fn lemma_lex_lt_irrefl(a: Seq<u8>)
    ensures
        !lex_lt(a, a),
    decreases a.len(),
{
    if a.len() > 0 {
        lemma_lex_lt_irrefl(a.drop_first());
    }
}

pub proof fn lemma_lex_lt_asymm(a: Seq<u8>, b: Seq<u8>)
    requires
        lex_lt(a, b),
    ensures
        !lex_lt(b, a),
    decreases a.len(),
{
    if a.len() > 0 && b.len() > 0 && a[0] == b[0] {
        lemma_lex_lt_asymm(a.drop_first(), b.drop_first());
    }
}

pub proof fn lemma_lex_lt_total(a: Seq<u8>, b: Seq<u8>)
    requires
        !lex_lt(a, b),
        !lex_lt(b, a),
    ensures
        a == b,
    decreases a.len(),
{
    if a.len() == 0 && b.len() == 0 {
        assert(a =~= b);
    } else {
        lemma_lex_lt_total(a.drop_first(), b.drop_first());
        assert(a =~= seq![a[0]] + a.drop_first());
        assert(b =~= seq![b[0]] + b.drop_first());
    }
}

pub proof fn lemma_lex_lt_trans(a: Seq<u8>, b: Seq<u8>, c: Seq<u8>)
    requires
        lex_lt(a, b),
        lex_lt(b, c),
    ensures
        lex_lt(a, c),
    decreases a.len(),
{
    if a.len() > 0 && b.len() > 0 && c.len() > 0 && a[0] == b[0] && b[0] == c[0] {
        lemma_lex_lt_trans(a.drop_first(), b.drop_first(), c.drop_first());
    }
}

/// Dropping equal first elements on both sides preserves the order.
pub proof fn lemma_lex_lt_skip(a: Seq<u8>, b: Seq<u8>, i: int)
    requires
        0 <= i <= a.len(),
        i <= b.len(),
        a.subrange(0, i) == b.subrange(0, i),
    ensures
        lex_lt(a, b) == lex_lt(a.skip(i), b.skip(i)),
    decreases i,
{
    if i > 0 {
        assert(a[0] == b[0]) by {
            assert(a.subrange(0, i)[0] == a[0]);
            assert(b.subrange(0, i)[0] == b[0]);
        }
        assert(a.drop_first().subrange(0, i - 1) =~= b.drop_first().subrange(0, i - 1)) by {
            assert forall|j: int| 0 <= j < i - 1 implies a.drop_first()[j] == b.drop_first()[j] by {
                assert(a.subrange(0, i)[j + 1] == a[j + 1]);
                assert(b.subrange(0, i)[j + 1] == b[j + 1]);
            }
        }
        lemma_lex_lt_skip(a.drop_first(), b.drop_first(), i - 1);
        assert(a.drop_first().skip(i - 1) =~= a.skip(i));
        assert(b.drop_first().skip(i - 1) =~= b.skip(i));
    } else {
        assert(a.skip(0) =~= a);
        assert(b.skip(0) =~= b);
    }
}

/// UTF-8 encoding is injective, because decoding recovers the characters.
pub proof fn lemma_encode_utf8_injective(a: Seq<char>, b: Seq<char>)
    requires
        encode_utf8(a) == encode_utf8(b),
    ensures
        a == b,
{
    encode_utf8_decode_utf8(a);
    encode_utf8_decode_utf8(b);
}

/// Strict order on keys: lexicographic order of the UTF-8 encodings.
pub open spec fn key_lt(a: Seq<char>, b: Seq<char>) -> bool {
    lex_lt(encode_utf8(a), encode_utf8(b))
}

pub proof fn lemma_key_lt_irrefl(a: Seq<char>)
    ensures
        !key_lt(a, a),
{
    lemma_lex_lt_irrefl(encode_utf8(a));
}

pub proof fn lemma_key_lt_asymm(a: Seq<char>, b: Seq<char>)
    requires
        key_lt(a, b),
    ensures
        !key_lt(b, a),
{
    lemma_lex_lt_asymm(encode_utf8(a), encode_utf8(b));
}

pub proof fn lemma_key_lt_total(a: Seq<char>, b: Seq<char>)
    requires
        !key_lt(a, b),
        !key_lt(b, a),
    ensures
        a == b,
{
    lemma_lex_lt_total(encode_utf8(a), encode_utf8(b));
    lemma_encode_utf8_injective(a, b);
}

pub proof fn lemma_key_lt_trans(a: Seq<char>, b: Seq<char>, c: Seq<char>)
    requires
        key_lt(a, b),
        key_lt(b, c),
    ensures
        key_lt(a, c),
{
    lemma_lex_lt_trans(encode_utf8(a), encode_utf8(b), encode_utf8(c));
}

/// Result of a three-way comparison.
#[derive(Clone, Copy, Debug, PartialEq, Eq, Structural)]
pub enum ByteOrd {
    Lt,
    Eq,
    Gt,
}

/// Three-way byte-lexicographic comparison of byte slices.
pub fn cmp_bytes(a: &[u8], b: &[u8]) -> (r: ByteOrd)
    ensures
        (r == ByteOrd::Lt) == lex_lt(a@, b@),
        (r == ByteOrd::Eq) == (a@ == b@),
        (r == ByteOrd::Gt) == lex_lt(b@, a@),
{
    let a_len = a.len();
    let b_len = b.len();
    let n = if a_len < b_len {
        a_len
    } else {
        b_len
    };
    let mut i: usize = 0;
    while i < n
        invariant
            0 <= i <= n,
            n <= a@.len(),
            n <= b@.len(),
            n == if a@.len() < b@.len() {
                a@.len()
            } else {
                b@.len()
            },
            a@.subrange(0, i as int) =~= b@.subrange(0, i as int),
        decreases n - i,
    {
        let x = a[i];
        let y = b[i];
        if x < y {
            proof {
                lemma_lex_lt_skip(a@, b@, i as int);
                lemma_lex_lt_irrefl(a@);
                lemma_lex_lt_asymm(a@, b@);
            }
            return ByteOrd::Lt;
        }
        if x > y {
            proof {
                lemma_lex_lt_skip(b@, a@, i as int);
                lemma_lex_lt_irrefl(b@);
                lemma_lex_lt_asymm(b@, a@);
            }
            return ByteOrd::Gt;
        }
        proof {
            assert(a@.subrange(0, i + 1 as int) =~= a@.subrange(0, i as int) + seq![a@[i as int]]);
            assert(b@.subrange(0, i + 1 as int) =~= b@.subrange(0, i as int) + seq![b@[i as int]]);
        }
        i = i + 1;
    }
    proof {
        lemma_lex_lt_skip(a@, b@, n as int);
        lemma_lex_lt_skip(b@, a@, n as int);
    }
    if a_len < b_len {
        proof {
            lemma_lex_lt_irrefl(a@);
            lemma_lex_lt_asymm(a@, b@);
        }
        ByteOrd::Lt
    } else if a_len > b_len {
        proof {
            lemma_lex_lt_irrefl(b@);
            lemma_lex_lt_asymm(b@, a@);
        }
        ByteOrd::Gt
    } else {
        proof {
            assert(a@ =~= b@) by {
                assert forall|j: int| 0 <= j < a@.len() implies a@[j] == b@[j] by {
                    assert(a@.subrange(0, n as int)[j] == a@[j]);
                    assert(b@.subrange(0, n as int)[j] == b@[j]);
                }
            }
            lemma_lex_lt_irrefl(a@);
        }
        ByteOrd::Eq
    }
}

/// True when `p` is a byte prefix of `a`.
pub fn is_lex_prefix(p: &[u8], a: &[u8]) -> (r: bool)
    ensures
        r == lex_prefix(p@, a@),
{
    let p_len = p.len();
    if p_len > a.len() {
        return false;
    }
    let mut i: usize = 0;
    while i < p_len
        invariant
            0 <= i <= p_len,
            p_len == p@.len(),
            p_len <= a@.len(),
            forall|j: int| 0 <= j < i ==> a@[j] == p@[j],
        decreases p_len - i,
    {
        if a[i] != p[i] {
            assert(a@.subrange(0, p@.len() as int) != p@) by {
                assert(a@.subrange(0, p@.len() as int)[i as int] == a@[i as int]);
            }
            return false;
        }
        i = i + 1;
    }
    assert(a@.subrange(0, p@.len() as int) =~= p@);
    true
}


/// UTF-8 encoding distributes over concatenation.
pub proof fn lemma_encode_concat(a: Seq<char>, b: Seq<char>)
    ensures
        encode_utf8(a + b) == encode_utf8(a) + encode_utf8(b),
    decreases a.len(),
{
    if a.len() == 0 {
        assert(a + b =~= b);
        assert(encode_utf8(a) + encode_utf8(b) =~= encode_utf8(b));
    } else {
        assert((a + b)[0] == a[0]);
        assert((a + b).drop_first() =~= a.drop_first() + b);
        lemma_encode_concat(a.drop_first(), b);
        assert(encode_utf8(a + b) =~= encode_utf8(a) + encode_utf8(b));
    }
}

/// A prefix never exceeds what extends it.
pub proof fn lemma_lex_prefix_ge(p: Seq<u8>, k: Seq<u8>)
    requires
        lex_prefix(p, k),
    ensures
        !lex_lt(k, p),
    decreases p.len(),
{
    if p.len() > 0 {
        assert(p[0] == k[0]) by {
            assert(k.subrange(0, p.len() as int)[0] == k[0]);
        }
        assert(lex_prefix(p.drop_first(), k.drop_first())) by {
            assert(k.drop_first().subrange(0, p.drop_first().len() as int) =~= p.drop_first()) by {
                assert forall|i: int| 0 <= i < p.len() - 1 implies k.drop_first()[i] == p.drop_first()[i] by {
                    assert(k.subrange(0, p.len() as int)[i + 1] == k[i + 1]);
                }
            }
        }
        lemma_lex_prefix_ge(p.drop_first(), k.drop_first());
    }
}

/// A key at or above `p` that does not extend `p` exceeds every
/// extension of `p`.
pub proof fn lemma_nonprefix_above(p: Seq<u8>, k: Seq<u8>, m: Seq<u8>)
    requires
        !lex_prefix(p, k),
        !lex_lt(k, p),
    ensures
        lex_lt(p + m, k),
    decreases p.len(),
{
    if p.len() == 0 {
        assert(k.subrange(0, 0) =~= p);
        assert(lex_prefix(p, k));
    } else if k.len() == 0 {
        assert(lex_lt(k, p));
    } else if p[0] == k[0] {
        assert(!lex_prefix(p.drop_first(), k.drop_first())) by {
            if lex_prefix(p.drop_first(), k.drop_first()) {
                assert(k.subrange(0, p.len() as int) =~= p) by {
                    assert forall|i: int| 0 <= i < p.len() implies k.subrange(
                        0,
                        p.len() as int,
                    )[i] == p[i] by {
                        if i > 0 {
                            assert(k.drop_first().subrange(0, p.drop_first().len() as int)[i - 1]
                                == k.drop_first()[i - 1]);
                            assert(k.drop_first().subrange(0, p.drop_first().len() as int)[i - 1]
                                == p.drop_first()[i - 1]);
                        }
                    }
                }
            }
        }
        lemma_nonprefix_above(p.drop_first(), k.drop_first(), m);
        assert((p + m)[0] == k[0]);
        assert((p + m).drop_first() =~= p.drop_first() + m);
    } else {
        assert(p[0] < k[0]);
        assert((p + m)[0] == p[0]);
    }
}

} // verus!

