//! Ordering and equality of strings as the byte-wise lexicographic order of
//! their UTF-8 encodings.

use vstd::prelude::*;
use vstd::utf8::encode_utf8;
use vstd::utf8::encode_utf8_decode_utf8;

verus! {

/// `a` and `b` agree on their first `i` bytes, and at position `i` either `a`
/// has ended while `b` goes on, or `a` holds the smaller byte.
pub open spec fn splits_below(a: Seq<u8>, b: Seq<u8>, i: int) -> bool {
    &&& 0 <= i <= a.len()
    &&& i <= b.len()
    &&& a.subrange(0, i) == b.subrange(0, i)
    &&& if i == a.len() {
        i < b.len()
    } else {
        i < b.len() && a[i] < b[i]
    }
}

/// Strict lexicographic order on byte sequences.
pub open spec fn bytes_less(a: Seq<u8>, b: Seq<u8>) -> bool {
    exists|i: int| splits_below(a, b, i)
}

/// Strict order on texts: the order of their UTF-8 encodings.
pub open spec fn text_less(a: Seq<char>, b: Seq<char>) -> bool {
    bytes_less(encode_utf8(a), encode_utf8(b))
}

pub proof fn lemma_bytes_less_transitive(a: Seq<u8>, b: Seq<u8>, c: Seq<u8>)
    requires
        bytes_less(a, b),
        bytes_less(b, c),
    ensures
        bytes_less(a, c),
{
    let i = choose|i: int| splits_below(a, b, i);
    let j = choose|j: int| splits_below(b, c, j);
    let m = if i <= j { i } else { j };
    assert(a.subrange(0, m) =~= a.subrange(0, i).subrange(0, m));
    assert(b.subrange(0, m) =~= b.subrange(0, i).subrange(0, m));
    assert(b.subrange(0, m) =~= b.subrange(0, j).subrange(0, m));
    assert(c.subrange(0, m) =~= c.subrange(0, j).subrange(0, m));
    if i < j {
        assert(b.subrange(0, j)[i] == c.subrange(0, j)[i]);
    } else if j < i {
        assert(a.subrange(0, i)[j] == b.subrange(0, i)[j]);
    }
    assert(splits_below(a, c, m));
}

/// Two byte sequences that agree on a common prefix of length `i`, where `i`
/// is the length of neither or the bytes at `i` differ, are ordered one way.
pub proof fn lemma_bytes_less_total(a: Seq<u8>, b: Seq<u8>)
    ensures
        bytes_less(a, b) || bytes_less(b, a) || a == b,
    decreases a.len(),
{
    if a =~= b {
    } else if a.len() == 0 {
        assert(a.subrange(0, 0) =~= b.subrange(0, 0));
        assert(splits_below(a, b, 0));
    } else if b.len() == 0 {
        assert(a.subrange(0, 0) =~= b.subrange(0, 0));
        assert(splits_below(b, a, 0));
    } else if a[0] != b[0] {
        assert(a.subrange(0, 0) =~= b.subrange(0, 0));
        assert(b.subrange(0, 0) =~= a.subrange(0, 0));
        if a[0] < b[0] {
            assert(splits_below(a, b, 0));
        } else {
            assert(splits_below(b, a, 0));
        }
    } else {
        let ta = a.drop_first();
        let tb = b.drop_first();
        lemma_bytes_less_total(ta, tb);
        if ta == tb {
            assert(a =~= seq![a[0]] + ta);
            assert(b =~= seq![b[0]] + tb);
        } else if bytes_less(ta, tb) {
            let i = choose|i: int| splits_below(ta, tb, i);
            lemma_splits_below_shift(a, b, i);
        } else {
            let i = choose|i: int| splits_below(tb, ta, i);
            lemma_splits_below_shift(b, a, i);
        }
    }
}

proof fn lemma_splits_below_shift(a: Seq<u8>, b: Seq<u8>, i: int)
    requires
        a.len() > 0,
        b.len() > 0,
        a[0] == b[0],
        splits_below(a.drop_first(), b.drop_first(), i),
    ensures
        splits_below(a, b, i + 1),
{
    let ta = a.drop_first();
    let tb = b.drop_first();
    assert forall|k: int| 0 <= k < i + 1 implies a[k] == b[k] by {
        if k > 0 {
            assert(ta.subrange(0, i)[k - 1] == tb.subrange(0, i)[k - 1]);
        }
    }
    assert(a.subrange(0, i + 1) =~= b.subrange(0, i + 1));
    if i < ta.len() {
        assert(ta[i] == a[i + 1]);
        assert(tb[i] == b[i + 1]);
    }
}

/// Texts with the same encoding are the same text.
pub proof fn lemma_encoding_injective(a: Seq<char>, b: Seq<char>)
    requires
        encode_utf8(a) == encode_utf8(b),
    ensures
        a == b,
{
    encode_utf8_decode_utf8(a);
    encode_utf8_decode_utf8(b);
}

pub proof fn lemma_text_less_transitive(a: Seq<char>, b: Seq<char>, c: Seq<char>)
    requires
        text_less(a, b),
        text_less(b, c),
    ensures
        text_less(a, c),
{
    lemma_bytes_less_transitive(encode_utf8(a), encode_utf8(b), encode_utf8(c));
}

pub proof fn lemma_text_less_asymmetric(a: Seq<char>, b: Seq<char>)
    requires
        text_less(a, b),
    ensures
        !text_less(b, a),
        a != b,
{
    if text_less(b, a) {
        lemma_text_less_transitive(a, b, a);
    }
}

/// Exactly one of `a < b`, `a == b`, `b < a` holds.
pub proof fn lemma_text_less_total(a: Seq<char>, b: Seq<char>)
    ensures
        text_less(a, b) || text_less(b, a) || a == b,
{
    lemma_bytes_less_total(encode_utf8(a), encode_utf8(b));
    if encode_utf8(a) == encode_utf8(b) {
        lemma_encoding_injective(a, b);
    }
}

/// Whether `a` sorts strictly before `b`.
pub fn str_less(a: &str, b: &str) -> (r: bool)
    ensures
        r == text_less(a@, b@),
{
    let x = a.as_bytes();
    let y = b.as_bytes();
    let mut i: usize = 0;
    while i < x.len() && i < y.len()
        invariant
            x@ == encode_utf8(a@),
            y@ == encode_utf8(b@),
            0 <= i <= x@.len(),
            i <= y@.len(),
            x@.subrange(0, i as int) == y@.subrange(0, i as int),
        decreases x@.len() - i,
    {
        if x[i] != y[i] {
            let r = x[i] < y[i];
            proof {
                lemma_split_decides(x@, y@, i as int);
            }
            return r;
        }
        proof {
            assert(x@.subrange(0, i + 1) =~= x@.subrange(0, i as int).push(x@[i as int]));
            assert(y@.subrange(0, i + 1) =~= y@.subrange(0, i as int).push(y@[i as int]));
        }
        i += 1;
    }
    let r = i < y.len();
    proof {
        lemma_split_decides(x@, y@, i as int);
    }
    r
}

/// Once the first position at which two sequences part is known, that
/// position alone decides their order.
proof fn lemma_split_decides(a: Seq<u8>, b: Seq<u8>, i: int)
    requires
        0 <= i <= a.len(),
        i <= b.len(),
        a.subrange(0, i) == b.subrange(0, i),
        i == a.len() || i == b.len() || a[i] != b[i],
    ensures
        bytes_less(a, b) == splits_below(a, b, i),
{
    if bytes_less(a, b) {
        let j = choose|j: int| splits_below(a, b, j);
        if j < i {
            assert(a.subrange(0, i)[j] == a[j]);
            assert(b.subrange(0, i)[j] == b[j]);
        } else if j > i {
            assert(a.subrange(0, j)[i] == a[i]);
            assert(b.subrange(0, j)[i] == b[i]);
        }
    }
}

} // verus!
