//! Wildcard patterns: what they mean, and how they are read.
use vstd::prelude::*;
use crate::bytes::starts_with;

verus! {

/// The byte that stands for zero or more bytes.
pub const ANY: u8 = 42;

/// The byte that stands for exactly one byte.
pub const ONE: u8 = 63;

/// The byte that takes the special meaning from the byte behind it.
pub const ESCAPE: u8 = 92;

/// A segment of a wildcard pattern.
pub ghost enum Segment {
    Any,
    One,
    Literal(Seq<u8>),
}

/// Whether `pattern`, as it is written, matches the whole of `key`.
///
/// An escape at the very end has nothing to act on and stands for nothing.
pub open spec fn glob(pattern: Seq<u8>, key: Seq<u8>) -> bool
    decreases pattern.len(),
{
    if pattern.len() == 0 {
        key.len() == 0
    } else if pattern[0] == ANY {
        exists|n: int| 0 <= n <= key.len() && glob(pattern.skip(1), #[trigger] key.skip(n))
    } else if pattern[0] == ONE {
        key.len() > 0 && glob(pattern.skip(1), key.skip(1))
    } else if pattern[0] == ESCAPE {
        if pattern.len() == 1 {
            key.len() == 0
        } else {
            key.len() > 0 && key[0] == pattern[1] && glob(pattern.skip(2), key.skip(1))
        }
    } else {
        key.len() > 0 && key[0] == pattern[0] && glob(pattern.skip(1), key.skip(1))
    }
}

/// Whether a row of segments matches the whole of `key`.
pub open spec fn accepts(segments: Seq<Segment>, key: Seq<u8>) -> bool
    decreases segments.len(),
{
    if segments.len() == 0 {
        key.len() == 0
    } else {
        match segments[0] {
            Segment::Any => exists|n: int|
                0 <= n <= key.len() && accepts(segments.skip(1), #[trigger] key.skip(n)),
            Segment::One => key.len() > 0 && accepts(segments.skip(1), key.skip(1)),
            Segment::Literal(bytes) => starts_with(key, bytes) && accepts(
                segments.skip(1),
                key.skip(bytes.len() as int),
            ),
        }
    }
}

/// Whether some key that goes on after `key` is matched.
pub open spec fn grows(segments: Seq<Segment>, key: Seq<u8>) -> bool {
    exists|more: Seq<u8>| more.len() > 0 && #[trigger] accepts(segments, key + more)
}

/// Whether no literal is empty.
pub open spec fn sound(segments: Seq<Segment>) -> bool {
    forall|i: int|
        0 <= i < segments.len() ==> ((#[trigger] segments[i]) matches Segment::Literal(bytes)
            ==> bytes.len() > 0)
}

/// Whether a byte that is not escaped is a wildcard.
pub open spec fn wild(b: u8) -> bool {
    b == ANY || b == ONE
}

/// Whether a byte that is not escaped stands for itself.
pub open spec fn plain(b: u8) -> bool {
    !wild(b) && b != ESCAPE
}

/// The number of wildcards at the front of `pattern`.
pub open spec fn wild_run(pattern: Seq<u8>) -> nat
    decreases pattern.len(),
{
    if pattern.len() > 0 && wild(pattern[0]) {
        1 + wild_run(pattern.skip(1))
    } else {
        0
    }
}

/// The number of bytes at the front of `pattern` that stand for themselves.
pub open spec fn plain_run(pattern: Seq<u8>) -> nat
    decreases pattern.len(),
{
    if pattern.len() > 0 && plain(pattern[0]) {
        1 + plain_run(pattern.skip(1))
    } else {
        0
    }
}

/// The number of single bytes that a run of wildcards asks for.
pub open spec fn marks(run: Seq<u8>) -> nat
    decreases run.len(),
{
    if run.len() == 0 {
        0
    } else {
        marks(run.drop_last()) + if run.last() == ONE {
            1nat
        } else {
            0
        }
    }
}

/// The segments that a run of wildcards comes down to: one for every single byte asked for, and
/// [`Segment::Any`] behind them if there is one in the run.
pub open spec fn wild_segments(run: Seq<u8>) -> Seq<Segment> {
    Seq::new(marks(run), |i: int| Segment::One) + if run.contains(ANY) {
        seq![Segment::Any]
    } else {
        Seq::empty()
    }
}

/// The segments of `pattern`. A run of wildcards is brought into the order of
/// [`wild_segments`]; a literal goes up to the next wildcard or escape, and an escaped byte begins
/// a literal of its own.
pub open spec fn parsed(pattern: Seq<u8>) -> Seq<Segment>
    decreases pattern.len(),
    via parsed_decreases
{
    if pattern.len() == 0 {
        Seq::empty()
    } else if wild(pattern[0]) {
        let n = wild_run(pattern) as int;
        wild_segments(pattern.take(n)) + parsed(pattern.skip(n))
    } else {
        let start: int = if pattern[0] == ESCAPE {
            1
        } else {
            0
        };
        if start == pattern.len() {
            Seq::empty()
        } else {
            let end = start + 1 + plain_run(pattern.skip(start + 1));
            seq![Segment::Literal(pattern.subrange(start, end))] + parsed(pattern.skip(end))
        }
    }
}

#[via_fn]
proof fn parsed_decreases(pattern: Seq<u8>) {
    lemma_wild_run(pattern);
    if pattern.len() > 0 && !wild(pattern[0]) {
        let start: int = if pattern[0] == ESCAPE {
            1
        } else {
            0
        };
        if start < pattern.len() {
            lemma_plain_run(pattern.skip(start + 1));
        }
    }
}

/// [`wild_run`] counts wildcards up to the first byte that is none.
pub proof fn lemma_wild_run(pattern: Seq<u8>)
    ensures
        wild_run(pattern) <= pattern.len(),
        forall|i: int| 0 <= i < wild_run(pattern) ==> wild(#[trigger] pattern[i]),
        wild_run(pattern) < pattern.len() ==> !wild(pattern[wild_run(pattern) as int]),
    decreases pattern.len(),
{
    if pattern.len() > 0 && wild(pattern[0]) {
        let rest = pattern.skip(1);
        lemma_wild_run(rest);
        assert forall|i: int| 0 <= i < wild_run(pattern) implies wild(#[trigger] pattern[i]) by {
            if i > 0 {
                assert(rest[i - 1] == pattern[i]);
            }
        }
    }
}

/// [`plain_run`] counts bytes that stand for themselves up to the first that does not.
pub proof fn lemma_plain_run(pattern: Seq<u8>)
    ensures
        plain_run(pattern) <= pattern.len(),
        forall|i: int| 0 <= i < plain_run(pattern) ==> plain(#[trigger] pattern[i]),
        plain_run(pattern) < pattern.len() ==> !plain(pattern[plain_run(pattern) as int]),
    decreases pattern.len(),
{
    if pattern.len() > 0 && plain(pattern[0]) {
        let rest = pattern.skip(1);
        lemma_plain_run(rest);
        assert forall|i: int| 0 <= i < plain_run(pattern) implies plain(#[trigger] pattern[i]) by {
            if i > 0 {
                assert(rest[i - 1] == pattern[i]);
            }
        }
    }
}

/// Single bytes at the front of a run add to those behind them.
proof fn lemma_marks_first(run: Seq<u8>)
    requires
        run.len() > 0,
    ensures
        marks(run) == marks(run.skip(1)) + if run[0] == ONE {
            1nat
        } else {
            0
        },
    decreases run.len(),
{
    if run.len() > 1 {
        lemma_marks_first(run.drop_last());
        assert(run.drop_last().skip(1) =~= run.skip(1).drop_last());
    } else {
        assert(run.drop_last() =~= Seq::empty());
        assert(run.skip(1) =~= Seq::empty());
    }
}

/// A run of wildcards at the front of a pattern takes up as many bytes as it asks for one by one,
/// and more where [`ANY`] is among them.
proof fn lemma_glob_wild(pattern: Seq<u8>, n: int, key: Seq<u8>)
    requires
        0 <= n <= pattern.len(),
        forall|i: int| 0 <= i < n ==> wild(#[trigger] pattern[i]),
    ensures
        glob(pattern, key) <==> if pattern.take(n).contains(ANY) {
            exists|j: int|
                marks(pattern.take(n)) <= j <= key.len() && glob(
                    pattern.skip(n),
                    #[trigger] key.skip(j),
                )
        } else {
            marks(pattern.take(n)) <= key.len() && glob(
                pattern.skip(n),
                key.skip(marks(pattern.take(n)) as int),
            )
        },
    decreases n,
{
    let run = pattern.take(n);
    let m = marks(run) as int;
    let after = pattern.skip(n);
    if n == 0 {
        assert(pattern.skip(0) =~= pattern);
        assert(key.skip(0) =~= key);
    } else {
        let rest = pattern.skip(1);
        let inner = rest.take(n - 1);
        assert(run.skip(1) =~= inner);
        lemma_marks_first(run);
        assert(rest.skip(n - 1) =~= after);
        if pattern[0] == ONE {
            if run.contains(ANY) {
                let i = choose|i: int| 0 <= i < run.len() && run[i] == ANY;
                assert(inner[i - 1] == ANY);
            }
            if key.len() > 0 {
                let tail = key.skip(1);
                lemma_glob_wild(rest, n - 1, tail);
                assert forall|j: int| 0 <= j <= tail.len() implies #[trigger] tail.skip(j)
                    == key.skip(j + 1) by {}
                if run.contains(ANY) {
                    if exists|j: int| m <= j <= key.len() && glob(after, #[trigger] key.skip(j)) {
                        let j = choose|j: int|
                            m <= j <= key.len() && glob(after, #[trigger] key.skip(j));
                        assert(glob(after, tail.skip(j - 1)));
                    }
                }
            }
        } else {
            assert forall|a: int, j: int|
                #![trigger key.skip(a).skip(j)]
                0 <= a <= key.len() && 0 <= j <= key.len() - a implies key.skip(a).skip(j)
                == key.skip(a + j) by {}
            if glob(pattern, key) {
                let a = choose|a: int| 0 <= a <= key.len() && glob(rest, #[trigger] key.skip(a));
                lemma_glob_wild(rest, n - 1, key.skip(a));
            }
            if exists|j: int| m <= j <= key.len() && glob(after, #[trigger] key.skip(j)) {
                let j = choose|j: int| m <= j <= key.len() && glob(after, #[trigger] key.skip(j));
                lemma_glob_wild(rest, n - 1, key.skip(j - m));
                assert(key.skip(j - m).skip(m) == key.skip(j));
            }
        }
    }
}

/// Bytes at the front of a pattern that stand for themselves are looked for as they are.
proof fn lemma_glob_plain(pattern: Seq<u8>, n: int, key: Seq<u8>)
    requires
        0 <= n <= pattern.len(),
        forall|i: int| 0 <= i < n ==> plain(#[trigger] pattern[i]),
    ensures
        glob(pattern, key) <==> starts_with(key, pattern.take(n)) && glob(
            pattern.skip(n),
            key.skip(n),
        ),
    decreases n,
{
    if n == 0 {
        assert(pattern.skip(0) =~= pattern);
        assert(key.skip(0) =~= key);
    } else {
        let rest = pattern.skip(1);
        let front = pattern.take(n);
        if key.len() > 0 {
            let tail = key.skip(1);
            lemma_glob_plain(rest, n - 1, tail);
            assert(rest.skip(n - 1) =~= pattern.skip(n));
            assert(n <= key.len() ==> tail.skip(n - 1) =~= key.skip(n));
            if key[0] == pattern[0] && starts_with(tail, rest.take(n - 1)) {
                assert forall|i: int| 0 <= i < n implies key[i] == front[i] by {
                    if i > 0 {
                        assert(tail[i - 1] == rest.take(n - 1)[i - 1]);
                    }
                }
            }
        }
    }
}

/// Segments for single bytes take up one byte each.
proof fn lemma_accepts_ones(m: nat, segments: Seq<Segment>, key: Seq<u8>)
    ensures
        accepts(Seq::new(m, |i: int| Segment::One) + segments, key) <==> m <= key.len() && accepts(
            segments,
            key.skip(m as int),
        ),
    decreases m,
{
    let all = Seq::new(m, |i: int| Segment::One) + segments;
    if m == 0 {
        assert(key.skip(0) =~= key);
    } else {
        let fewer = (m - 1) as nat;
        assert(all.skip(1) =~= Seq::new(fewer, |i: int| Segment::One) + segments);
        if key.len() > 0 {
            lemma_accepts_ones(fewer, segments, key.skip(1));
            assert(m <= key.len() ==> key.skip(1).skip(fewer as int) =~= key.skip(m as int));
        }
    }
}

/// The segments of a pattern match the same keys as the pattern.
pub proof fn lemma_parsed(pattern: Seq<u8>, key: Seq<u8>)
    ensures
        accepts(parsed(pattern), key) <==> glob(pattern, key),
    decreases pattern.len(),
{
    if pattern.len() > 0 {
        if wild(pattern[0]) {
            let n = wild_run(pattern) as int;
            lemma_wild_run(pattern);
            let run = pattern.take(n);
            let m = marks(run);
            let after = pattern.skip(n);
            let rest = parsed(after);
            lemma_glob_wild(pattern, n, key);
            if run.contains(ANY) {
                let tail = seq![Segment::Any] + rest;
                assert(parsed(pattern) =~= Seq::new(m, |i: int| Segment::One) + tail);
                lemma_accepts_ones(m, tail, key);
                assert(tail.skip(1) =~= rest);
                if m <= key.len() {
                    let left = key.skip(m as int);
                    assert forall|b: int| 0 <= b <= left.len() implies #[trigger] left.skip(b)
                        == key.skip(m + b) by {}
                    if accepts(tail, left) {
                        let b = choose|b: int|
                            0 <= b <= left.len() && accepts(rest, #[trigger] left.skip(b));
                        lemma_parsed(after, key.skip(m + b));
                    }
                    if glob(pattern, key) {
                        let j = choose|j: int|
                            m <= j <= key.len() && glob(after, #[trigger] key.skip(j));
                        lemma_parsed(after, key.skip(j));
                        assert(accepts(rest, left.skip(j - m)));
                    }
                }
            } else {
                lemma_accepts_ones(m, rest, key);
                lemma_parsed(after, key.skip(m as int));
            }
        } else {
            let start: int = if pattern[0] == ESCAPE {
                1
            } else {
                0
            };
            if start < pattern.len() {
                let behind = pattern.skip(start + 1);
                let n = plain_run(behind) as int;
                lemma_plain_run(behind);
                let end = start + 1 + n;
                let bytes = pattern.subrange(start, end);
                let after = pattern.skip(end);
                assert(parsed(pattern).skip(1) =~= parsed(after));
                lemma_parsed(after, key.skip(bytes.len() as int));
                assert(behind.skip(n) =~= after);
                if key.len() > 0 {
                    let tail = key.skip(1);
                    lemma_glob_plain(behind, n, tail);
                    assert(1 + n <= key.len() ==> tail.skip(n) =~= key.skip(1 + n));
                    if key[0] == bytes[0] && starts_with(tail, behind.take(n)) {
                        assert forall|i: int| 0 <= i < bytes.len() implies key[i] == bytes[i] by {
                            if i > 0 {
                                assert(tail[i - 1] == behind.take(n)[i - 1]);
                            }
                        }
                    }
                }
            }
        }
    }
}

/// No literal that comes out of a pattern is empty.
pub proof fn lemma_parsed_sound(pattern: Seq<u8>)
    ensures
        sound(parsed(pattern)),
    decreases pattern.len(),
{
    if pattern.len() > 0 {
        if wild(pattern[0]) {
            let n = wild_run(pattern) as int;
            lemma_wild_run(pattern);
            lemma_parsed_sound(pattern.skip(n));
        } else {
            let start: int = if pattern[0] == ESCAPE {
                1
            } else {
                0
            };
            if start < pattern.len() {
                lemma_plain_run(pattern.skip(start + 1));
                let end = start + 1 + plain_run(pattern.skip(start + 1));
                lemma_parsed_sound(pattern.skip(end));
            }
        }
    }
}

/// A key that `segments` match.
spec fn sample(segments: Seq<Segment>) -> Seq<u8>
    decreases segments.len(),
{
    if segments.len() == 0 {
        Seq::empty()
    } else {
        (match segments[0] {
            Segment::Literal(bytes) => bytes,
            _ => seq![0u8],
        }) + sample(segments.skip(1))
    }
}

proof fn lemma_sample(segments: Seq<Segment>)
    ensures
        accepts(segments, sample(segments)),
        segments.len() > 0 && sound(segments) ==> sample(segments).len() > 0,
    decreases segments.len(),
{
    if segments.len() > 0 {
        let rest = segments.skip(1);
        lemma_sample(rest);
        let key = sample(segments);
        let n: int = match segments[0] {
            Segment::Literal(bytes) => bytes.len() as int,
            _ => 1,
        };
        assert(key.skip(n) =~= sample(rest));
    }
}

/// Where the key is used up, it is matched if nothing but [`Segment::Any`] is left, and a longer
/// key is if anything is left.
pub proof fn lemma_at_end(segments: Seq<Segment>)
    requires
        sound(segments),
    ensures
        accepts(segments, Seq::empty()) <==> forall|i: int|
            0 <= i < segments.len() ==> (#[trigger] segments[i]) is Any,
        grows(segments, Seq::empty()) <==> segments.len() > 0,
    decreases segments.len(),
{
    let none = Seq::<u8>::empty();
    if segments.len() > 0 {
        let rest = segments.skip(1);
        lemma_at_end(rest);
        assert(none.skip(0) =~= none);
        if accepts(segments, none) {
            assert forall|i: int| 0 <= i < segments.len() implies (
            #[trigger] segments[i]) is Any by {
                if i > 0 {
                    assert(rest[i - 1] is Any);
                }
            }
        }
        lemma_sample(segments);
        assert(none + sample(segments) =~= sample(segments));
    }
}

/// Behind a literal, the rest decides; a literal that goes on after the key lets it grow, and one
/// that differs from it does not.
pub proof fn lemma_at_literal(segments: Seq<Segment>, bytes: Seq<u8>, key: Seq<u8>)
    requires
        segments.len() > 0,
        segments[0] == Segment::Literal(bytes),
        sound(segments),
    ensures
        starts_with(key, bytes) ==> {
            &&& accepts(segments, key) <==> accepts(segments.skip(1), key.skip(bytes.len() as int))
            &&& grows(segments, key) <==> grows(segments.skip(1), key.skip(bytes.len() as int))
        },
        !starts_with(key, bytes) ==> {
            &&& !accepts(segments, key)
            &&& grows(segments, key) <==> starts_with(bytes, key)
        },
{
    let rest = segments.skip(1);
    let n = bytes.len() as int;
    if starts_with(key, bytes) {
        assert forall|more: Seq<u8>| #[trigger]
            accepts(segments, key + more) <==> accepts(rest, key.skip(n) + more) by {
            assert((key + more).skip(n) =~= key.skip(n) + more);
        }
        if grows(rest, key.skip(n)) {
            let more = choose|more: Seq<u8>|
                more.len() > 0 && #[trigger] accepts(rest, key.skip(n) + more);
            assert(accepts(segments, key + more));
        }
    } else {
        if starts_with(bytes, key) {
            lemma_sample(rest);
            let more = bytes.skip(key.len() as int) + sample(rest);
            assert((key + more).skip(n) =~= sample(rest));
            assert(accepts(segments, key + more));
        }
    }
}

/// Behind a segment for one byte, the rest decides.
pub proof fn lemma_at_one(segments: Seq<Segment>, key: Seq<u8>)
    requires
        segments.len() > 0,
        segments[0] is One,
        key.len() > 0,
    ensures
        accepts(segments, key) <==> accepts(segments.skip(1), key.skip(1)),
        grows(segments, key) <==> grows(segments.skip(1), key.skip(1)),
{
    let rest = segments.skip(1);
    assert forall|more: Seq<u8>| #[trigger]
        accepts(segments, key + more) <==> accepts(rest, key.skip(1) + more) by {
        assert((key + more).skip(1) =~= key.skip(1) + more);
    }
    if grows(rest, key.skip(1)) {
        let more = choose|more: Seq<u8>|
            more.len() > 0 && #[trigger] accepts(rest, key.skip(1) + more);
        assert(accepts(segments, key + more));
    }
}

/// [`Segment::Any`] takes up the rest of any key and more.
pub proof fn lemma_at_any(segments: Seq<Segment>, key: Seq<u8>)
    requires
        segments.len() > 0,
        segments[0] is Any,
    ensures
        grows(segments, key),
{
    let rest = segments.skip(1);
    lemma_sample(rest);
    let more = seq![0u8] + sample(rest);
    let n = key.len() + 1;
    assert((key + more).skip(n as int) =~= sample(rest));
    assert(accepts(segments, key + more));
}

} // verus!
