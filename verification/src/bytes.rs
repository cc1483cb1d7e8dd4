//! Byte strings: the keys of a tree, prefixes and common prefixes.
use vstd::prelude::*;

verus! {

/// Whether `s` begins with `p`.
pub open spec fn starts_with(s: Seq<u8>, p: Seq<u8>) -> bool {
    &&& p.len() <= s.len()
    &&& forall|i: int| 0 <= i < p.len() ==> s[i] == p[i]
}

/// The number of bytes that `a` and `b` have in common at their front.
pub open spec fn lcp(a: Seq<u8>, b: Seq<u8>) -> nat
    decreases a.len(),
{
    if a.len() > 0 && b.len() > 0 && a[0] == b[0] {
        1 + lcp(a.skip(1), b.skip(1))
    } else {
        0
    }
}

/// `a` and `b` agree below `lcp(a, b)`, and differ there unless one of them ends.
pub proof fn lemma_lcp(a: Seq<u8>, b: Seq<u8>)
    ensures
        lcp(a, b) <= a.len(),
        lcp(a, b) <= b.len(),
        forall|i: int| 0 <= i < lcp(a, b) ==> a[i] == b[i],
        lcp(a, b) < a.len() && lcp(a, b) < b.len() ==> a[lcp(a, b) as int] != b[lcp(a, b) as int],
    decreases a.len(),
{
    if a.len() > 0 && b.len() > 0 && a[0] == b[0] {
        let x = a.skip(1);
        let y = b.skip(1);
        lemma_lcp(x, y);
        assert forall|i: int| 0 <= i < lcp(a, b) implies a[i] == b[i] by {
            if i > 0 {
                assert(x[i - 1] == y[i - 1]);
            }
        }
    }
}

/// Only one number has the properties that `lemma_lcp` gives to `lcp(a, b)`.
pub proof fn lemma_lcp_unique(a: Seq<u8>, b: Seq<u8>, n: nat)
    requires
        n <= a.len(),
        n <= b.len(),
        forall|i: int| 0 <= i < n ==> a[i] == b[i],
        n < a.len() && n < b.len() ==> a[n as int] != b[n as int],
    ensures
        lcp(a, b) == n,
{
    lemma_lcp(a, b);
}

/// Whether `a` comes before `b` in lexicographic order.
pub open spec fn precedes(a: Seq<u8>, b: Seq<u8>) -> bool {
    let n = lcp(a, b);
    n < b.len() && (n == a.len() || a[n as int] < b[n as int])
}

/// A value that can be read as a byte string, and so used as a key.
pub trait BorrowedBytes {
    /// The bytes of this value.
    spec fn bytes(&self) -> Seq<u8>;

    /// Returns the bytes of this value.
    fn as_bytes(&self) -> (b: &[u8])
        ensures
            b@ == self.bytes(),
    ;
}

impl BorrowedBytes for [u8] {
    open spec fn bytes(&self) -> Seq<u8> {
        self@
    }

    fn as_bytes(&self) -> (b: &[u8]) {
        self
    }
}

impl<const N: usize> BorrowedBytes for [u8; N] {
    open spec fn bytes(&self) -> Seq<u8> {
        self@
    }

    fn as_bytes(&self) -> (b: &[u8]) {
        self.as_slice()
    }
}

impl BorrowedBytes for Vec<u8> {
    open spec fn bytes(&self) -> Seq<u8> {
        self@
    }

    fn as_bytes(&self) -> (b: &[u8]) {
        self.as_slice()
    }
}

impl BorrowedBytes for str {
    open spec fn bytes(&self) -> Seq<u8> {
        vstd::utf8::encode_utf8(self@)
    }

    fn as_bytes(&self) -> (b: &[u8]) {
        self.as_bytes()
    }
}

impl BorrowedBytes for String {
    open spec fn bytes(&self) -> Seq<u8> {
        vstd::utf8::encode_utf8(self@)
    }

    fn as_bytes(&self) -> (b: &[u8]) {
        self.as_str().as_bytes()
    }
}

/// Returns what follows `prefix` in `key`, or `None` if `key` does not begin with it.
pub fn strip_prefix<'a>(key: &'a [u8], prefix: &[u8]) -> (rest: Option<&'a [u8]>)
    ensures
        rest is Some <==> starts_with(key@, prefix@),
        rest is Some ==> rest->0@ == key@.skip(prefix@.len() as int),
{
    let n: usize = prefix.len();
    if key.len() < n || common_prefix_len(key, prefix) != n {
        proof {
            lemma_lcp(key@, prefix@);
        }
        return None;
    }
    proof {
        lemma_lcp(key@, prefix@);
    }
    Some(vstd::slice::slice_subrange(key, n, key.len()))
}

/// Returns the number of bytes that `a` and `b` have in common at their front.
pub fn common_prefix_len(a: &[u8], b: &[u8]) -> (n: usize)
    ensures
        n == lcp(a@, b@),
{
    let mut n: usize = 0;
    while n < a.len() && n < b.len() && a[n] == b[n]
        invariant
            n <= a@.len(),
            n <= b@.len(),
            forall|i: int| 0 <= i < n ==> a@[i] == b@[i],
        decreases a@.len() - n,
    {
        n = n + 1;
    }
    proof {
        lemma_lcp_unique(a@, b@, n as nat);
    }
    n
}

} // verus!
