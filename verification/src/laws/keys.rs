//! What the keys of a tree are: which bytes a value stands for, what a prefix is, and in which
//! order byte strings come.
use vstd::prelude::*;
use vstd::utf8::{decode_utf8, encode_utf8, encode_utf8_decode_utf8, valid_utf8};
use crate::bytes::{lcp, lemma_lcp, lemma_lcp_unique, precedes, starts_with, BorrowedBytes};
use crate::laws::law_insert;
use crate::tree::Tree;

verus! {

/// A slice is a key as it is: all of its bytes, in order.
pub proof fn law_bytes_of_slice(key: &[u8])
    ensures
        BorrowedBytes::bytes(key).len() == key@.len(),
        forall|i: int| 0 <= i < key@.len() ==> BorrowedBytes::bytes(key)[i] == #[trigger] key@[i],
{
}

/// An array is a key as it is: all of its bytes, in order.
pub proof fn law_bytes_of_array<const N: usize>(key: &[u8; N])
    ensures
        BorrowedBytes::bytes(key).len() == N,
        forall|i: int| 0 <= i < N ==> BorrowedBytes::bytes(key)[i] == #[trigger] key@[i],
        BorrowedBytes::bytes(key) == key@,
{
}

/// A vector is a key as it is: all of its bytes, in order.
pub proof fn law_bytes_of_vec(key: &Vec<u8>)
    ensures
        BorrowedBytes::bytes(key).len() == key@.len(),
        forall|i: int| 0 <= i < key@.len() ==> BorrowedBytes::bytes(key)[i] == #[trigger] key@[i],
{
}

/// A text is the key that its UTF-8 encoding is, from the first character to the last, and can be
/// read off its key again.
pub proof fn law_bytes_of_str(key: &str)
    ensures
        BorrowedBytes::bytes(key) == encode_utf8(key@),
        valid_utf8(BorrowedBytes::bytes(key)),
        decode_utf8(BorrowedBytes::bytes(key)) == key@,
{
    vstd::utf8::encode_utf8_valid_utf8(key@);
    encode_utf8_decode_utf8(key@);
}

/// A [`String`] is the same key as the text that it holds.
pub proof fn law_bytes_of_string(key: &String, text: &str)
    ensures
        BorrowedBytes::bytes(key) == encode_utf8(key@),
        decode_utf8(BorrowedBytes::bytes(key)) == key@,
        key@ == text@ <==> BorrowedBytes::bytes(key) == BorrowedBytes::bytes(text),
{
    vstd::utf8::encode_utf8_valid_utf8(key@);
    encode_utf8_decode_utf8(key@);
    encode_utf8_decode_utf8(text@);
}

/// Different texts are different keys.
pub proof fn law_strs_apart(a: &str, b: &str)
    requires
        a@ != b@,
    ensures
        BorrowedBytes::bytes(a) != BorrowedBytes::bytes(b),
{
    law_bytes_of_str(a);
    law_bytes_of_str(b);
}

/// Texts that follow one another are keys that do: what is joined as text is joined as bytes.
pub proof fn law_bytes_join(a: &str, b: &str, joined: &str)
    requires
        joined@ == a@ + b@,
    ensures
        BorrowedBytes::bytes(joined) == BorrowedBytes::bytes(a) + BorrowedBytes::bytes(b),
{
    lemma_encode_join(a@, b@);
}

proof fn lemma_encode_join(a: Seq<char>, b: Seq<char>)
    ensures
        encode_utf8(a + b) == encode_utf8(a) + encode_utf8(b),
    decreases a.len(),
{
    if a.len() == 0 {
        assert(a + b =~= b);
        assert(encode_utf8(a) =~= Seq::empty());
    } else {
        lemma_encode_join(a.drop_first(), b);
        assert((a + b).drop_first() =~= a.drop_first() + b);
        assert((a + b)[0] == a[0]);
        assert(encode_utf8(a + b) =~= encode_utf8(a) + encode_utf8(b));
    }
}

/// Inserting under one text leaves what stands under every other text alone.
pub proof fn law_insert_under_str<V>(t: Tree<V>, key: &str, value: V, other: &str)
    requires
        t.valid(),
    ensures
        t.insert(encode_utf8(key@), value).lookup(BorrowedBytes::bytes(key)) == Some(value),
        key@ != other@ ==> t.insert(BorrowedBytes::bytes(key), value).lookup(
            BorrowedBytes::bytes(other),
        ) == t.lookup(encode_utf8(other@)),
{
    law_insert(t, BorrowedBytes::bytes(key), value, BorrowedBytes::bytes(key));
    law_insert(t, BorrowedBytes::bytes(key), value, BorrowedBytes::bytes(other));
    if key@ != other@ {
        law_strs_apart(key, other);
    }
}

/// A byte string begins with another exactly if something can be put behind the other to make it.
pub proof fn law_starts_with(s: Seq<u8>, p: Seq<u8>)
    ensures
        starts_with(s, p) <==> exists|rest: Seq<u8>| #[trigger] (p + rest) == s,
        starts_with(s, p) ==> s == p + s.skip(p.len() as int),
{
    if starts_with(s, p) {
        assert(p + s.skip(p.len() as int) =~= s);
    }
}

/// The common front of two byte strings is one of both, and every other is a front of it.
pub proof fn law_common_front(a: Seq<u8>, b: Seq<u8>, front: Seq<u8>)
    ensures
        lcp(a, b) <= a.len(),
        lcp(a, b) <= b.len(),
        a.take(lcp(a, b) as int) == b.take(lcp(a, b) as int),
        starts_with(a, front) && starts_with(b, front) ==> front.len() <= lcp(a, b),
        lcp(a, b) == lcp(b, a),
{
    lemma_lcp(a, b);
    lemma_lcp_unique(b, a, lcp(a, b));
    assert(a.take(lcp(a, b) as int) =~= b.take(lcp(a, b) as int));
    if starts_with(a, front) && starts_with(b, front) && front.len() > lcp(a, b) {
        let n = lcp(a, b) as int;
        assert(a[n] == front[n] && b[n] == front[n]);
    }
}

/// A byte string comes before another if it is a proper front of it, or if it has the smaller byte
/// in the first place where the two differ; and never otherwise.
pub proof fn law_precedes(a: Seq<u8>, b: Seq<u8>)
    ensures
        precedes(a, b) <==> (starts_with(b, a) && a.len() < b.len()) || exists|n: int|
            0 <= n < a.len() && n < b.len() && a.take(n) == b.take(n) && #[trigger] a[n] < b[n],
{
    lemma_lcp(a, b);
    let n = lcp(a, b) as int;
    if precedes(a, b) {
        if n < a.len() {
            assert(a.take(n) =~= b.take(n));
            assert(a[n] < b[n]);
        }
    }
    if starts_with(b, a) && a.len() < b.len() {
        lemma_lcp_unique(a, b, a.len());
    }
    if exists|n: int|
        0 <= n < a.len() && n < b.len() && a.take(n) == b.take(n) && #[trigger] a[n] < b[n] {
        let m = choose|m: int|
            0 <= m < a.len() && m < b.len() && a.take(m) == b.take(m) && #[trigger] a[m] < b[m];
        assert forall|i: int| 0 <= i < m implies a[i] == b[i] by {
            assert(a.take(m)[i] == b.take(m)[i]);
        }
        lemma_lcp_unique(a, b, m as nat);
    }
}

/// Of two byte strings that are not the same, exactly one comes before the other.
pub proof fn law_precedes_total(a: Seq<u8>, b: Seq<u8>)
    ensures
        a == b ==> !precedes(a, b),
        a != b ==> (precedes(a, b) <==> !precedes(b, a)),
{
    lemma_lcp(a, b);
    lemma_lcp_unique(b, a, lcp(a, b));
    if a != b && lcp(a, b) == a.len() && lcp(a, b) == b.len() {
        assert(a =~= b);
    }
    if a == b {
        lemma_lcp_unique(a, b, a.len());
    }
}

/// What comes before a byte string comes before all that it comes before.
pub proof fn law_precedes_transitive(a: Seq<u8>, b: Seq<u8>, c: Seq<u8>)
    requires
        precedes(a, b),
        precedes(b, c),
    ensures
        precedes(a, c),
{
    lemma_lcp(a, b);
    lemma_lcp(b, c);
    let m = lcp(a, b);
    let n = lcp(b, c);
    let k = if m < n {
        m
    } else {
        n
    };
    assert forall|i: int| 0 <= i < k implies a[i] == c[i] by {
        assert(a[i] == b[i] && b[i] == c[i]);
    }
    lemma_lcp_unique(a, c, k);
}

} // verus!
