//! The order on words: lexicographic on the bytes of the UTF-8 encoding.

use vstd::prelude::*;
use vstd::utf8::*;

verus! {

/// Outcome of comparing two words.
#[derive(Clone, Copy, Debug, PartialEq, Eq)]
pub enum KeyOrder {
    Less,
    Equal,
    Greater,
}

/// `a` comes strictly before `b` in lexicographic order: at the first position
/// where they differ `a` holds the smaller byte, or `a` is a proper prefix of `b`.
pub open spec fn bytes_less(a: Seq<u8>, b: Seq<u8>) -> bool
    decreases a.len(),
{
    if b.len() == 0 {
        false
    } else if a.len() == 0 {
        true
    } else if a[0] != b[0] {
        a[0] < b[0]
    } else {
        bytes_less(a.drop_first(), b.drop_first())
    }
}

/// The strict order on words.
pub open spec fn word_less(a: Seq<char>, b: Seq<char>) -> bool {
    bytes_less(encode_utf8(a), encode_utf8(b))
}

/// No byte string comes before itself.
pub proof fn lemma_bytes_less_irreflexive(a: Seq<u8>)
    ensures
        !bytes_less(a, a),
    decreases a.len(),
{
    if a.len() > 0 {
        lemma_bytes_less_irreflexive(a.drop_first());
    }
}

/// Of two byte strings at most one comes before the other.
pub proof fn lemma_bytes_less_asymmetric(a: Seq<u8>, b: Seq<u8>)
    requires
        bytes_less(a, b),
    ensures
        !bytes_less(b, a),
    decreases a.len(),
{
    if a.len() > 0 && b.len() > 0 && a[0] == b[0] {
        lemma_bytes_less_asymmetric(a.drop_first(), b.drop_first());
    }
}

/// The order is transitive.
pub proof fn lemma_bytes_less_transitive(a: Seq<u8>, b: Seq<u8>, c: Seq<u8>)
    requires
        bytes_less(a, b),
        bytes_less(b, c),
    ensures
        bytes_less(a, c),
    decreases a.len(),
{
    if a.len() > 0 && b.len() > 0 && c.len() > 0 && a[0] == b[0] && b[0] == c[0] {
        lemma_bytes_less_transitive(a.drop_first(), b.drop_first(), c.drop_first());
    }
}

/// Two different byte strings are ordered one way or the other.
pub proof fn lemma_bytes_less_total(a: Seq<u8>, b: Seq<u8>)
    ensures
        a == b || bytes_less(a, b) || bytes_less(b, a),
    decreases a.len(),
{
    if a.len() > 0 && b.len() > 0 {
        if a[0] == b[0] {
            lemma_bytes_less_total(a.drop_first(), b.drop_first());
            if a.drop_first() == b.drop_first() {
                assert(a =~= seq![a[0]] + a.drop_first());
                assert(b =~= seq![b[0]] + b.drop_first());
            }
        }
    } else if a.len() == 0 && b.len() == 0 {
        assert(a =~= b);
    }
}

/// When `a` and `b` agree on their first `i` bytes, the order of the whole
/// strings is that of what follows.
pub proof fn lemma_bytes_less_skip_prefix(a: Seq<u8>, b: Seq<u8>, i: int)
    requires
        0 <= i <= a.len(),
        i <= b.len(),
        a.subrange(0, i) == b.subrange(0, i),
    ensures
        bytes_less(a, b) == bytes_less(a.skip(i), b.skip(i)),
    decreases i,
{
    if i == 0 {
        assert(a.skip(0) =~= a);
        assert(b.skip(0) =~= b);
    } else {
        assert(a[0] == a.subrange(0, i)[0]);
        assert(b[0] == b.subrange(0, i)[0]);
        assert(a.drop_first().subrange(0, i - 1) =~= a.subrange(0, i).drop_first());
        assert(b.drop_first().subrange(0, i - 1) =~= b.subrange(0, i).drop_first());
        lemma_bytes_less_skip_prefix(a.drop_first(), b.drop_first(), i - 1);
        assert(a.drop_first().skip(i - 1) =~= a.skip(i));
        assert(b.drop_first().skip(i - 1) =~= b.skip(i));
    }
}

/// Different words have different encodings, so the order on words is total.
pub proof fn lemma_word_less_total(a: Seq<char>, b: Seq<char>)
    ensures
        a == b || word_less(a, b) || word_less(b, a),
{
    lemma_bytes_less_total(encode_utf8(a), encode_utf8(b));
    encode_utf8_decode_utf8(a);
    encode_utf8_decode_utf8(b);
}

/// No word comes before itself.
pub proof fn lemma_word_less_irreflexive(a: Seq<char>)
    ensures
        !word_less(a, a),
{
    lemma_bytes_less_irreflexive(encode_utf8(a));
}

/// Of two words at most one comes before the other.
pub proof fn lemma_word_less_asymmetric(a: Seq<char>, b: Seq<char>)
    requires
        word_less(a, b),
    ensures
        !word_less(b, a),
        a != b,
{
    lemma_bytes_less_asymmetric(encode_utf8(a), encode_utf8(b));
    lemma_bytes_less_irreflexive(encode_utf8(a));
}

/// The order on words is transitive.
pub proof fn lemma_word_less_transitive(a: Seq<char>, b: Seq<char>, c: Seq<char>)
    requires
        word_less(a, b),
        word_less(b, c),
    ensures
        word_less(a, c),
{
    lemma_bytes_less_transitive(encode_utf8(a), encode_utf8(b), encode_utf8(c));
}

/// Of two words exactly one holds: they are equal, the first comes before
/// the second, or the second before the first.
pub proof fn lemma_word_less_trichotomy(a: Seq<char>, b: Seq<char>)
    ensures
        (a == b) as int + word_less(a, b) as int + word_less(b, a) as int == 1,
{
    lemma_word_less_total(a, b);
    lemma_word_less_irreflexive(a);
    if word_less(a, b) {
        lemma_word_less_asymmetric(a, b);
    }
    if word_less(b, a) {
        lemma_word_less_asymmetric(b, a);
    }
}

/// Compares two words by the bytes of their encodings.
pub fn compare(a: &str, b: &str) -> (r: KeyOrder)
    ensures
        r == KeyOrder::Less <==> word_less(a@, b@),
        r == KeyOrder::Equal <==> a@ == b@,
        r == KeyOrder::Greater <==> word_less(b@, a@),
{
    let x = a.as_bytes();
    let y = b.as_bytes();
    let n = x.len();
    let m = y.len();
    let mut i: usize = 0;
    while i < n && i < m
        invariant
            n == x@.len(),
            m == y@.len(),
            i <= n,
            i <= m,
            x@.subrange(0, i as int) == y@.subrange(0, i as int),
            x@ == encode_utf8(a@),
            y@ == encode_utf8(b@),
        decreases n - i,
    {
        let p = x[i];
        let q = y[i];
        if p != q {
            proof {
                lemma_bytes_less_skip_prefix(x@, y@, i as int);
                lemma_word_less_trichotomy(a@, b@);
            }
            if p < q {
                return KeyOrder::Less;
            } else {
                return KeyOrder::Greater;
            }
        }
        proof {
            assert(x@.subrange(0, i + 1) =~= x@.subrange(0, i as int).push(p));
            assert(y@.subrange(0, i + 1) =~= y@.subrange(0, i as int).push(q));
        }
        i += 1;
    }
    proof {
        lemma_bytes_less_skip_prefix(x@, y@, i as int);
        lemma_word_less_trichotomy(a@, b@);
        if n == m {
            assert(x@ =~= x@.subrange(0, i as int));
            assert(y@ =~= y@.subrange(0, i as int));
            encode_utf8_decode_utf8(a@);
            encode_utf8_decode_utf8(b@);
        }
    }
    if n < m {
        KeyOrder::Less
    } else if n == m {
        KeyOrder::Equal
    } else {
        KeyOrder::Greater
    }
}

} // verus!
