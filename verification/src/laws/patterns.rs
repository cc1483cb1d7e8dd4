//! What a wildcard pattern matches, and what a search by one finds.
use vstd::prelude::*;
use crate::bytes::starts_with;
use crate::pattern::{
    accepts, glob, grows, lemma_parsed, lemma_parsed_sound, lemma_plain_run, lemma_wild_run, marks,
    parsed, plain, plain_run, sound, wild, wild_run, Segment, ANY, ESCAPE, ONE,
};
use crate::tree::Tree;
use crate::wildcard::{matching, segments, verdict, Pattern};

verus! {

/// The bytes with a meaning of their own are `*`, `?` and the backslash.
pub proof fn law_special_bytes()
    ensures
        ANY == '*' as u8,
        ONE == '?' as u8,
        ESCAPE == '\\' as u8,
{
}

/// Nothing matches nothing.
pub proof fn law_pattern_empty(key: Seq<u8>)
    ensures
        glob(Seq::empty(), key) <==> key == Seq::<u8>::empty(),
{
    assert(key.len() == 0 ==> key =~= Seq::empty());
}

/// A byte without a meaning of its own matches itself, and the rest of the pattern the rest of the
/// key.
pub proof fn law_pattern_plain(b: u8, pattern: Seq<u8>, key: Seq<u8>)
    requires
        b != '*' as u8,
        b != '?' as u8,
        b != '\\' as u8,
    ensures
        glob(seq![b] + pattern, key) <==> key.len() > 0 && key[0] == b && glob(
            pattern,
            key.skip(1),
        ),
{
    assert((seq![b] + pattern).skip(1) =~= pattern);
}

/// A `?` matches one byte, whichever it is, and the rest of the pattern the rest of the key.
pub proof fn law_pattern_one(pattern: Seq<u8>, key: Seq<u8>)
    ensures
        glob(seq!['?' as u8] + pattern, key) <==> key.len() > 0 && glob(pattern, key.skip(1)),
{
    assert((seq!['?' as u8] + pattern).skip(1) =~= pattern);
}

/// A `*` matches any front of a key, an empty one and the whole key too, and the rest of the
/// pattern the rest of the key.
pub proof fn law_pattern_any(pattern: Seq<u8>, key: Seq<u8>)
    ensures
        glob(seq!['*' as u8] + pattern, key) <==> exists|front: Seq<u8>, rest: Seq<u8>|
            key == #[trigger] (front + rest) && glob(pattern, rest),
{
    let whole = seq!['*' as u8] + pattern;
    assert(whole.skip(1) =~= pattern);
    if glob(whole, key) {
        let n = choose|n: int| 0 <= n <= key.len() && glob(pattern, #[trigger] key.skip(n));
        assert(key =~= key.take(n) + key.skip(n));
    }
    if exists|front: Seq<u8>, rest: Seq<u8>|
        key == #[trigger] (front + rest) && glob(pattern, rest) {
        let (front, rest) = choose|front: Seq<u8>, rest: Seq<u8>|
            key == #[trigger] (front + rest) && glob(pattern, rest);
        assert(key.skip(front.len() as int) =~= rest);
    }
}

/// Behind a backslash every byte matches itself, whatever its meaning is otherwise, and the rest
/// of the pattern the rest of the key.
pub proof fn law_pattern_escape(b: u8, pattern: Seq<u8>, key: Seq<u8>)
    ensures
        glob(seq!['\\' as u8, b] + pattern, key) <==> key.len() > 0 && key[0] == b && glob(
            pattern,
            key.skip(1),
        ),
{
    assert((seq!['\\' as u8, b] + pattern).skip(2) =~= pattern);
}

/// A backslash with nothing behind it stands for nothing.
pub proof fn law_pattern_dangling(key: Seq<u8>)
    ensures
        glob(seq!['\\' as u8], key) <==> key == Seq::<u8>::empty(),
{
    assert(key.len() == 0 ==> key =~= Seq::empty());
}

/// `text` with a backslash before each of its bytes.
pub open spec fn escaped(text: Seq<u8>) -> Seq<u8> {
    Seq::new(
        2 * text.len(),
        |i: int|
            if i % 2 == 0 {
                '\\' as u8
            } else {
                text[i / 2]
            },
    )
}

/// A text with a backslash before each of its bytes matches itself at the front of a key, and the
/// rest of the pattern the rest of the key.
pub proof fn law_escaped_front(text: Seq<u8>, pattern: Seq<u8>, key: Seq<u8>)
    ensures
        glob(escaped(text) + pattern, key) <==> starts_with(key, text) && glob(
            pattern,
            key.skip(text.len() as int),
        ),
    decreases text.len(),
{
    if text.len() == 0 {
        assert(escaped(text) + pattern =~= pattern);
        assert(key.skip(0) =~= key);
    } else {
        let rest = text.skip(1);
        assert(escaped(text) + pattern =~= seq!['\\' as u8, text[0]] + (escaped(rest) + pattern));
        law_pattern_escape(text[0], escaped(rest) + pattern, key);
        if key.len() > 0 {
            let tail = key.skip(1);
            law_escaped_front(rest, pattern, tail);
            assert(text.len() <= key.len() ==> tail.skip(rest.len() as int) =~= key.skip(
                text.len() as int,
            ));
            if key[0] == text[0] && starts_with(tail, rest) {
                assert forall|i: int| 0 <= i < text.len() implies key[i] == text[i] by {
                    if i > 0 {
                        assert(tail[i - 1] == rest[i - 1]);
                    }
                }
            }
        }
    }
}

/// A text with a backslash before each of its bytes matches itself and nothing else.
pub proof fn law_escaped(text: Seq<u8>, key: Seq<u8>)
    ensures
        glob(escaped(text), key) <==> key == text,
{
    law_escaped_front(text, Seq::empty(), key);
    assert(escaped(text) + Seq::<u8>::empty() =~= escaped(text));
    if starts_with(key, text) && key.skip(text.len() as int).len() == 0 {
        assert(key =~= text);
    }
}

/// Whether a pattern does not end in a backslash with nothing behind it.
pub open spec fn complete(pattern: Seq<u8>) -> bool
    decreases pattern.len(),
{
    if pattern.len() == 0 {
        true
    } else if pattern[0] == '\\' as u8 {
        pattern.len() > 1 && complete(pattern.skip(2))
    } else {
        complete(pattern.skip(1))
    }
}

/// Two patterns in a row match what can be cut in two so that each matches its part.
pub proof fn law_patterns_joined(p: Seq<u8>, q: Seq<u8>, key: Seq<u8>)
    requires
        complete(p),
    ensures
        glob(p + q, key) <==> exists|x: Seq<u8>, y: Seq<u8>|
            key == #[trigger] (x + y) && glob(p, x) && glob(q, y),
    decreases p.len(),
{
    if glob(p + q, key) {
        let n = lemma_cut(p, q, key);
        assert(key =~= key.take(n) + key.skip(n));
    }
    if exists|x: Seq<u8>, y: Seq<u8>| key == #[trigger] (x + y) && glob(p, x) && glob(q, y) {
        let (x, y) = choose|x: Seq<u8>, y: Seq<u8>|
            key == #[trigger] (x + y) && glob(p, x) && glob(q, y);
        lemma_glue(p, q, x, y);
    }
}

/// Where the first of two patterns in a row can end.
proof fn lemma_cut(p: Seq<u8>, q: Seq<u8>, key: Seq<u8>) -> (n: int)
    requires
        complete(p),
        glob(p + q, key),
    ensures
        0 <= n <= key.len(),
        glob(p, key.take(n)),
        glob(q, key.skip(n)),
    decreases p.len(),
{
    let whole = p + q;
    if p.len() == 0 {
        assert(whole =~= q);
        assert(key.skip(0) =~= key);
        0
    } else if p[0] == ANY {
        let rest = p.skip(1);
        assert(whole.skip(1) =~= rest + q);
        let a = choose|a: int| 0 <= a <= key.len() && glob(rest + q, #[trigger] key.skip(a));
        let m = lemma_cut(rest, q, key.skip(a));
        assert(key.take(a + m).skip(a) =~= key.skip(a).take(m));
        assert(key.skip(a).skip(m) =~= key.skip(a + m));
        a + m
    } else {
        let d: int = if p[0] == ESCAPE {
            2
        } else {
            1
        };
        let rest = p.skip(d);
        assert(whole.skip(d) =~= rest + q);
        let m = lemma_cut(rest, q, key.skip(1));
        assert(key.take(1 + m).skip(1) =~= key.skip(1).take(m));
        assert(key.skip(1).skip(m) =~= key.skip(1 + m));
        1 + m
    }
}

/// What two patterns match, put in a row, the two in a row match.
proof fn lemma_glue(p: Seq<u8>, q: Seq<u8>, x: Seq<u8>, y: Seq<u8>)
    requires
        complete(p),
        glob(p, x),
        glob(q, y),
    ensures
        glob(p + q, x + y),
    decreases p.len(),
{
    let whole = p + q;
    let key = x + y;
    if p.len() == 0 {
        assert(whole =~= q);
        assert(key =~= y);
    } else if p[0] == ANY {
        let rest = p.skip(1);
        assert(whole.skip(1) =~= rest + q);
        let a = choose|a: int| 0 <= a <= x.len() && glob(rest, #[trigger] x.skip(a));
        lemma_glue(rest, q, x.skip(a), y);
        assert(key.skip(a) =~= x.skip(a) + y);
    } else {
        let d: int = if p[0] == ESCAPE {
            2
        } else {
            1
        };
        let rest = p.skip(d);
        assert(whole.skip(d) =~= rest + q);
        lemma_glue(rest, q, x.skip(1), y);
        assert(key.skip(1) =~= x.skip(1) + y);
    }
}

/// No segments match nothing; a segment for any bytes matches everything, one for a single byte
/// what has one byte, and a literal itself.
pub proof fn law_segment(bytes: Seq<u8>, key: Seq<u8>)
    ensures
        accepts(Seq::empty(), key) <==> key == Seq::<u8>::empty(),
        accepts(seq![Segment::Any], key),
        accepts(seq![Segment::One], key) <==> key.len() == 1,
        accepts(seq![Segment::Literal(bytes)], key) <==> key == bytes,
{
    reveal_with_fuel(accepts, 2);
    let none = Seq::<Segment>::empty();
    assert(key.len() == 0 ==> key =~= Seq::empty());
    assert(seq![Segment::Any].skip(1) =~= none);
    assert(seq![Segment::One].skip(1) =~= none);
    assert(seq![Segment::Literal(bytes)].skip(1) =~= none);
    let end = key.skip(key.len() as int);
    assert(accepts(none, end));
    if starts_with(key, bytes) && key.skip(bytes.len() as int).len() == 0 {
        assert(key =~= bytes);
    }
    if key == bytes {
        assert(key.skip(bytes.len() as int).len() == 0);
    }
}

/// Segments in a row match what can be cut so that the first ones match the front and the others
/// the rest.
pub proof fn law_segments_joined(a: Seq<Segment>, b: Seq<Segment>, key: Seq<u8>)
    ensures
        accepts(a + b, key) <==> exists|x: Seq<u8>, y: Seq<u8>|
            key == #[trigger] (x + y) && accepts(a, x) && accepts(b, y),
{
    if accepts(a + b, key) {
        let n = lemma_segments_cut(a, b, key);
        assert(key =~= key.take(n) + key.skip(n));
    }
    if exists|x: Seq<u8>, y: Seq<u8>|
        key == #[trigger] (x + y) && accepts(a, x) && accepts(b, y) {
        let (x, y) = choose|x: Seq<u8>, y: Seq<u8>|
            key == #[trigger] (x + y) && accepts(a, x) && accepts(b, y);
        lemma_segments_glue(a, b, x, y);
    }
}

proof fn lemma_segments_cut(a: Seq<Segment>, b: Seq<Segment>, key: Seq<u8>) -> (n: int)
    requires
        accepts(a + b, key),
    ensures
        0 <= n <= key.len(),
        accepts(a, key.take(n)),
        accepts(b, key.skip(n)),
    decreases a.len(),
{
    let whole = a + b;
    if a.len() == 0 {
        assert(whole =~= b);
        assert(key.skip(0) =~= key);
        0
    } else {
        let rest = a.skip(1);
        assert(whole.skip(1) =~= rest + b);
        let c: int = match a[0] {
            Segment::Any => choose|c: int|
                0 <= c <= key.len() && accepts(rest + b, #[trigger] key.skip(c)),
            Segment::One => 1,
            Segment::Literal(bytes) => bytes.len() as int,
        };
        assert(accepts(rest + b, key.skip(c)));
        let m = lemma_segments_cut(rest, b, key.skip(c));
        assert(key.take(c + m).skip(c) =~= key.skip(c).take(m));
        assert(key.skip(c).skip(m) =~= key.skip(c + m));
        c + m
    }
}

proof fn lemma_segments_glue(a: Seq<Segment>, b: Seq<Segment>, x: Seq<u8>, y: Seq<u8>)
    requires
        accepts(a, x),
        accepts(b, y),
    ensures
        accepts(a + b, x + y),
    decreases a.len(),
{
    let whole = a + b;
    let key = x + y;
    if a.len() == 0 {
        assert(whole =~= b);
        assert(key =~= y);
    } else {
        let rest = a.skip(1);
        assert(whole.skip(1) =~= rest + b);
        let c: int = match a[0] {
            Segment::Any => choose|c: int|
                0 <= c <= x.len() && accepts(rest, #[trigger] x.skip(c)),
            Segment::One => 1,
            Segment::Literal(bytes) => bytes.len() as int,
        };
        assert(accepts(rest, x.skip(c)));
        lemma_segments_glue(rest, b, x.skip(c), y);
        assert(key.skip(c) =~= x.skip(c) + y);
    }
}

/// A key is met with a match exactly if the segments match it, and its children are looked at
/// exactly if some longer key can be matched.
pub proof fn law_verdict(segments: Seq<Segment>, key: Seq<u8>)
    ensures
        verdict(segments, key) is Match || verdict(segments, key) is MatchAndPartial <==> accepts(
            segments,
            key,
        ),
        verdict(segments, key) is PartialMatch || verdict(segments, key) is MatchAndPartial
            <==> exists|more: Seq<u8>|
            more.len() > 0 && accepts(segments, #[trigger] (key + more)),
{
    if grows(segments, key) {
        let more = choose|more: Seq<u8>|
            more.len() > 0 && #[trigger] accepts(segments, key + more);
        assert(accepts(segments, key + more));
    }
}

/// The segments of a pattern match what the pattern does, and no literal among them is empty.
pub proof fn law_parsed(pattern: Seq<u8>, key: Seq<u8>)
    ensures
        accepts(parsed(pattern), key) <==> glob(pattern, key),
        sound(parsed(pattern)),
        forall|i: int|
            0 <= i < parsed(pattern).len() ==> parsed(pattern)[i] != Segment::Literal(Seq::empty()),
{
    lemma_parsed(pattern, key);
    lemma_parsed_sound(pattern);
    assert forall|i: int| 0 <= i < parsed(pattern).len() implies #[trigger] parsed(pattern)[i]
        != Segment::Literal(Seq::empty()) by {}
}

/// A row of segments is sound exactly if no literal in it is empty.
pub proof fn law_sound(segments: Seq<Segment>)
    ensures
        sound(segments) <==> !segments.contains(Segment::Literal(Seq::empty())),
{
    let empty = Segment::Literal(Seq::empty());
    if segments.contains(empty) {
        let i = choose|i: int| 0 <= i < segments.len() && segments[i] == empty;
        assert(!sound(segments));
    } else {
        assert forall|i: int| 0 <= i < segments.len() implies ((#[trigger] segments[i]) matches
            Segment::Literal(bytes) ==> bytes.len() > 0) by {
            match segments[i] {
                Segment::Literal(bytes) => {
                    if bytes.len() == 0 {
                        assert(bytes =~= Seq::empty());
                    }
                },
                _ => {},
            }
        }
    }
}

/// The parts of a parsed pattern stand for themselves, one by one.
pub proof fn law_pattern_parts(patterns: Seq<Pattern<'_>>, i: int)
    requires
        0 <= i < patterns.len(),
    ensures
        segments(patterns).len() == patterns.len(),
        segments(patterns)[i] == match patterns[i] {
            Pattern::Any => Segment::Any,
            Pattern::One => Segment::One,
            Pattern::Literal(bytes) => Segment::Literal(bytes@),
        },
{
}

/// Bytes without a meaning of their own make one literal, up to the next byte that has one.
pub proof fn law_parsed_literal(run: Seq<u8>, rest: Seq<u8>)
    requires
        run.len() > 0,
        forall|i: int|
            0 <= i < run.len() ==> (#[trigger] run[i]) != '*' as u8 && run[i] != '?' as u8 && run[i]
                != '\\' as u8,
        rest.len() > 0 ==> rest[0] == '*' as u8 || rest[0] == '?' as u8 || rest[0] == '\\' as u8,
    ensures
        parsed(run + rest) == seq![Segment::Literal(run)] + parsed(rest),
{
    let whole = run + rest;
    let behind = whole.skip(1);
    let n = run.len() - 1;
    lemma_plain_length(behind, n);
    assert(whole.subrange(0, 1 + n) =~= run);
    assert(whole.skip(1 + n) =~= rest);
}

/// A byte behind a backslash begins a literal, which goes on with the bytes behind it that have no
/// meaning of their own. No backslash behind it is passed over.
pub proof fn law_parsed_escape(b: u8, run: Seq<u8>, rest: Seq<u8>)
    requires
        forall|i: int|
            0 <= i < run.len() ==> (#[trigger] run[i]) != '*' as u8 && run[i] != '?' as u8 && run[i]
                != '\\' as u8,
        rest.len() > 0 ==> rest[0] == '*' as u8 || rest[0] == '?' as u8 || rest[0] == '\\' as u8,
    ensures
        parsed(seq!['\\' as u8, b] + run + rest) == seq![Segment::Literal(seq![b] + run)] + parsed(
            rest,
        ),
{
    let whole = seq!['\\' as u8, b] + run + rest;
    let behind = whole.skip(2);
    let n = run.len() as int;
    assert forall|i: int| 0 <= i < n implies #[trigger] behind[i] == run[i] by {}
    lemma_plain_length(behind, n);
    assert(whole.subrange(1, 2 + n) =~= seq![b] + run);
    assert(whole.skip(2 + n) =~= rest);
}

/// How far the bytes without a meaning of their own reach.
proof fn lemma_plain_length(s: Seq<u8>, n: int)
    requires
        0 <= n <= s.len(),
        forall|i: int|
            0 <= i < n ==> (#[trigger] s[i]) != '*' as u8 && s[i] != '?' as u8 && s[i]
                != '\\' as u8,
        n < s.len() ==> s[n] == '*' as u8 || s[n] == '?' as u8 || s[n] == '\\' as u8,
    ensures
        plain_run(s) == n,
{
    lemma_plain_run(s);
    let m = plain_run(s) as int;
    if m < n {
        assert(plain(s[m]));
    }
    if n < m {
        assert(plain(s[n]));
    }
}

/// A run of wildcards asks for as many single bytes as there are `?` in it and, if there is a `*`,
/// for any bytes behind them.
pub proof fn law_parsed_wildcards(run: Seq<u8>, rest: Seq<u8>)
    requires
        run.len() > 0,
        forall|i: int|
            0 <= i < run.len() ==> (#[trigger] run[i]) == '*' as u8 || run[i] == '?' as u8,
        rest.len() > 0 ==> rest[0] != '*' as u8 && rest[0] != '?' as u8,
    ensures
        parsed(run + rest) == Seq::new(
            run.to_multiset().count('?' as u8),
            |i: int| Segment::One,
        ) + (if run.contains('*' as u8) {
            seq![Segment::Any]
        } else {
            Seq::empty()
        }) + parsed(rest),
{
    let whole = run + rest;
    let n = run.len() as int;
    lemma_wild_run(whole);
    let m = wild_run(whole) as int;
    if m < n {
        assert(wild(whole[m]));
    }
    if n < m {
        assert(wild(whole[n]));
    }
    assert(whole.take(n) =~= run);
    assert(whole.skip(n) =~= rest);
    lemma_marks(run);
}

proof fn lemma_marks(run: Seq<u8>)
    ensures
        marks(run) == run.to_multiset().count('?' as u8),
    decreases run.len(),
{
    run.to_multiset_ensures();
    if run.len() > 0 {
        let front = run.drop_last();
        lemma_marks(front);
        front.to_multiset_ensures();
        assert(front.push(run.last()) =~= run);
    }
}

/// An empty pattern, or a backslash with nothing behind it, has no segments.
pub proof fn law_parsed_empty()
    ensures
        parsed(Seq::empty()) == Seq::<Segment>::empty(),
        parsed(seq!['\\' as u8]) == Seq::<Segment>::empty(),
{
}

/// A search passes over the nodes whose keys do not match and keeps all the others, in the order in
/// which they are met: `places` says where each of them was.
pub proof fn law_matching<V>(found: Seq<(Seq<u8>, Tree<V>)>, pattern: Seq<u8>) -> (places: Seq<int>)
    ensures
        places.len() == matching(found, pattern).len(),
        forall|i: int|
            0 <= i < places.len() ==> 0 <= (#[trigger] places[i]) < found.len() && matching(
                found,
                pattern,
            )[i] == found[places[i]],
        forall|i: int, j: int| 0 <= i < j < places.len() ==> places[i] < places[j],
        forall|j: int|
            0 <= j < found.len() ==> (glob(pattern, (#[trigger] found[j]).0) <==> places.contains(
                j,
            )),
    decreases found.len(),
{
    reveal(Seq::filter);
    if found.len() == 0 {
        Seq::empty()
    } else {
        let front = found.drop_last();
        let last = found.len() - 1;
        let before = law_matching(front, pattern);
        let places = if glob(pattern, found[last].0) {
            before.push(last)
        } else {
            before
        };
        assert forall|j: int| 0 <= j < found.len() implies (glob(pattern, (#[trigger] found[j]).0)
            <==> places.contains(j)) by {
            if j < last {
                assert(front[j] == found[j]);
                if before.contains(j) {
                    let i = choose|i: int| 0 <= i < before.len() && before[i] == j;
                    assert(places[i] == j);
                }
                if places.contains(j) {
                    let i = choose|i: int| 0 <= i < places.len() && places[i] == j;
                    assert(before[i] == j);
                }
            } else {
                if glob(pattern, found[last].0) {
                    assert(places[before.len() as int] == last);
                }
            }
        }
        places
    }
}

} // verus!
