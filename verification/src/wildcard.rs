//! Iterating over the nodes whose keys match a wildcard pattern.
use vstd::prelude::*;
use crate::bytes::{common_prefix_len, lemma_lcp, starts_with, BorrowedBytes};
use crate::node::{views, Node};
use crate::pattern::{
    accepts, glob, grows, lemma_at_any, lemma_at_end, lemma_at_literal, lemma_at_one, lemma_parsed,
    lemma_parsed_sound, lemma_plain_run, lemma_wild_run, marks, parsed, plain, plain_run, sound,
    wild, Segment, ANY, ESCAPE, ONE,
};
use crate::traversal::{lemma_walk_all_keys, walk, walk_all, walked};
use crate::tree::Tree;

verus! {

/// A parsed wildcard pattern segment
#[derive(Debug, Clone, PartialEq, Eq)]
pub enum Pattern<'a> {
    /// `*` matches zero or more chars
    Any,
    /// `?` matches exactly one char
    One,
    /// Literal bytes to match exactly
    Literal(&'a [u8]),
}

impl<'a> View for Pattern<'a> {
    type V = Segment;

    open spec fn view(&self) -> Segment {
        match self {
            Pattern::Any => Segment::Any,
            Pattern::One => Segment::One,
            Pattern::Literal(bytes) => Segment::Literal(bytes@),
        }
    }
}

/// The segments that `patterns` stand for.
pub open spec fn segments(patterns: Seq<Pattern<'_>>) -> Seq<Segment> {
    Seq::new(patterns.len(), |i: int| patterns[i]@)
}

/// Parser for wildcard patterns
pub struct WildcardFilter;

impl WildcardFilter {
    /// Parse a pattern potentially with wildcards
    pub fn parse(pattern: &[u8]) -> (patterns: Vec<Pattern<'_>>)
        ensures
            segments(patterns@) == parsed(pattern@),
            sound(segments(patterns@)),
            forall|key: Seq<u8>| #[trigger]
                accepts(segments(patterns@), key) <==> glob(pattern@, key),
    {
        let n: usize = pattern.len();
        let mut patterns: Vec<Pattern<'_>> = Vec::new();
        let mut i: usize = 0;
        assert(pattern@.skip(0) =~= pattern@);
        while i < n
            invariant
                i <= n,
                n == pattern@.len(),
                segments(patterns@) + parsed(pattern@.skip(i as int)) == parsed(pattern@),
            decreases n - i,
        {
            let ghost rest = pattern@.skip(i as int);
            let ghost before = segments(patterns@);
            if pattern[i] == ANY || pattern[i] == ONE {
                // a run of wildcards: the single bytes first, then one `*` for all of them
                let start: usize = i;
                let mut any = false;
                while i < n && (pattern[i] == ANY || pattern[i] == ONE)
                    invariant
                        start <= i <= n,
                        n == pattern@.len(),
                        rest == pattern@.skip(start as int),
                        forall|j: int| 0 <= j < i - start ==> wild(#[trigger] rest[j]),
                        any == rest.take(i - start).contains(ANY),
                        segments(patterns@) == before + Seq::new(
                            marks(rest.take(i - start)),
                            |j: int| Segment::One,
                        ),
                    decreases n - i,
                {
                    let ghost run = rest.take(i - start);
                    let ghost longer = rest.take(i + 1 - start);
                    let ghost had = patterns@;
                    assert(longer.drop_last() =~= run);
                    if pattern[i] == ONE {
                        patterns.push(Pattern::One);
                        assert(segments(patterns@) =~= segments(had).push(Segment::One));
                    } else {
                        any = true;
                        assert(longer[i - start] == ANY);
                    }
                    i = i + 1;
                }
                let ghost had = patterns@;
                if any {
                    patterns.push(Pattern::Any);
                    assert(segments(patterns@) =~= segments(had).push(Segment::Any));
                }
                proof {
                    let count = i - start;
                    lemma_wild_run(rest);
                    assert(rest.skip(count) =~= pattern@.skip(i as int));
                }
            } else {
                // a literal; an escaped byte begins one whatever it is
                let escaped = pattern[i] == ESCAPE;
                let start: usize = if escaped {
                    i + 1
                } else {
                    i
                };
                if start == n {
                    i = n;
                } else {
                    let mut end: usize = start + 1;
                    let ghost behind = rest.skip(start - i + 1);
                    while end < n && pattern[end] != ANY && pattern[end] != ONE && pattern[end]
                        != ESCAPE
                        invariant
                            start < end <= n,
                            n == pattern@.len(),
                            behind == pattern@.skip(start + 1),
                            forall|j: int| 0 <= j < end - start - 1 ==> plain(#[trigger] behind[j]),
                        decreases n - end,
                    {
                        end = end + 1;
                    }
                    patterns.push(
                        Pattern::Literal(vstd::slice::slice_subrange(pattern, start, end)),
                    );
                    proof {
                        let offset = start - i;
                        let count = end - start - 1;
                        lemma_plain_run(behind);
                        assert(count == plain_run(behind)) by {
                            if count < plain_run(behind) {
                                assert(plain(behind[count]));
                            }
                        }
                        let bytes = rest.subrange(offset, offset + 1 + count);
                        assert(bytes =~= pattern@.subrange(start as int, end as int));
                        assert(rest.skip(offset + 1 + count) =~= pattern@.skip(end as int));
                    }
                    i = end;
                }
            }
        }
        proof {
            lemma_parsed_sound(pattern@);
            assert forall|key: Seq<u8>| #[trigger]
                accepts(segments(patterns@), key) <==> glob(pattern@, key) by {
                lemma_parsed(pattern@, key);
            }
        }
        patterns
    }
}

/// How a key stands to a pattern.
#[derive(Debug, Clone, Copy, PartialEq, Eq, Structural)]
pub enum WalkResult {
    /// Exact pattern match. Don't explore further.
    Match,
    /// Key matches so far AND children could also produce matches (e.g. trailing `*`).
    MatchAndPartial,
    /// Key is valid prefix of a match, explore children but don't yield this node.
    PartialMatch,
    /// Key cannot match, stop searching.
    NoMatch,
}

impl WalkResult {
    /// The result for a key that is matched or not, and that goes on to a longer key that is
    /// matched or not.
    pub open spec fn of(matched: bool, partial: bool) -> Self {
        if matched {
            if partial {
                WalkResult::MatchAndPartial
            } else {
                WalkResult::Match
            }
        } else if partial {
            WalkResult::PartialMatch
        } else {
            WalkResult::NoMatch
        }
    }

    /// Whether the key itself is matched.
    pub fn is_match(self) -> (matched: bool)
        ensures
            matched <==> self is Match || self is MatchAndPartial,
    {
        matches!(self, WalkResult::Match | WalkResult::MatchAndPartial)
    }

    /// Whether a longer key can be matched.
    pub fn explore_children(self) -> (partial: bool)
        ensures
            partial <==> self is PartialMatch || self is MatchAndPartial,
    {
        matches!(self, WalkResult::PartialMatch | WalkResult::MatchAndPartial)
    }
}

/// How `key` stands to a row of segments.
pub open spec fn verdict(segments: Seq<Segment>, key: Seq<u8>) -> WalkResult {
    WalkResult::of(accepts(segments, key), grows(segments, key))
}

/// State for wildcard pattern matching traversal
#[derive(Debug)]
struct WildcardState<'a, V> {
    node: &'a Node<V>,
    key: Vec<u8>,
}

/// An iterator over nodes matching a wildcard pattern
///
/// supports:
/// - `*` matches zero or more characters
/// - `?` matches exactly one character
/// - literal slices
#[derive(Debug)]
pub struct WildcardIter<'a, 'b, V> {
    patterns: Vec<Pattern<'b>>,
    stack: Vec<WildcardState<'a, V>>,
}

/// Result item from WildcardIter containing the accumulated key and the matching node
#[derive(Debug)]
pub struct WildcardMatch<'a, V> {
    pub key: Vec<u8>,
    pub node: &'a Node<V>,
}

/// The nodes among `found` whose keys match `pattern`.
pub open spec fn matching<V>(found: Seq<(Seq<u8>, Tree<V>)>, pattern: Seq<u8>) -> Seq<
    (Seq<u8>, Tree<V>),
> {
    found.filter(|item: (Seq<u8>, Tree<V>)| glob(pattern, item.0))
}

/// The nodes among `found` whose keys match `segments`.
spec fn accepted<V>(found: Seq<(Seq<u8>, Tree<V>)>, segments: Seq<Segment>) -> Seq<
    (Seq<u8>, Tree<V>),
> {
    found.filter(|item: (Seq<u8>, Tree<V>)| accepts(segments, item.0))
}

/// The trees that wait on a stack, with the keys above them.
spec fn waiting_keys<V>(stack: Seq<WildcardState<'_, V>>) -> Seq<(Seq<u8>, Tree<V>)> {
    Seq::new(stack.len(), |i: int| (stack[i].key@, stack[i].node@))
}

/// Whether every tree that waits is well-formed.
spec fn all_fit<V>(trees: Seq<(Seq<u8>, Tree<V>)>) -> bool {
    forall|i: int| 0 <= i < trees.len() ==> (#[trigger] trees[i]).1.bounded()
}

/// One node that is visited first either matches or does not.
proof fn lemma_accepted_first<V>(
    first: (Seq<u8>, Tree<V>),
    rest: Seq<(Seq<u8>, Tree<V>)>,
    segments: Seq<Segment>,
)
    ensures
        accepted(seq![first] + rest, segments) == if accepts(segments, first.0) {
            seq![first] + accepted(rest, segments)
        } else {
            accepted(rest, segments)
        },
{
    let pred = |item: (Seq<u8>, Tree<V>)| accepts(segments, item.0);
    let head = seq![first];
    reveal(Seq::filter);
    assert(head.drop_last().filter(pred) =~= Seq::empty());
}

/// Nothing below a key that no longer key can be matched from is matched.
proof fn lemma_pruned<V>(t: Tree<V>, key: Seq<u8>, segments: Seq<Segment>)
    requires
        t.bounded(),
        !grows(segments, key),
    ensures
        accepted(walk_all(t.children, key), segments) == Seq::<(Seq<u8>, Tree<V>)>::empty(),
{
    let room = choose|room: int| #[trigger] t.fits(room);
    let below = walk_all(t.children, key);
    let pred = |item: (Seq<u8>, Tree<V>)| accepts(segments, item.0);
    assert forall|i: int| 0 <= i < below.len() implies !pred(below[i]) by {
        let ts = t.children;
        assert forall|j: int| 0 <= j < ts.len() implies (#[trigger] ts[j]).label.len() > 0
            && ts[j].bounded() by {
            assert(ts[j].fits(room - t.label.len()));
        }
        lemma_walk_all_keys(ts, key, i);
        let more = below[i].0.skip(key.len() as int);
        assert(below[i].0 =~= key + more);
    }
    below.lemma_all_neg_filter_empty(pred);
}

impl<V> Node<V> {
    /// Gets an iterator which traverses nodes matching a wildcard pattern.
    ///
    /// The pattern supports:
    /// - `*` matches zero or more characters
    /// - `?` matches exactly one character
    /// - Any other byte matches literally
    ///
    /// Patterns `?` and `*` can be escaped with `\\` like so: `foo\\*b?r` to search the literal
    /// "foo*b" and `?r`
    pub fn wildcard_iter<'a, 'b, K: ?Sized + BorrowedBytes>(&'a self, pattern: &'b K) -> (iter:
        WildcardIter<'a, 'b, V>)
        requires
            self@.valid(),
        ensures
            iter.wf(),
            iter.remaining() == matching(walk(self@, Seq::empty()), pattern.bytes()),
    {
        let patterns = WildcardFilter::parse(pattern.as_bytes());
        let mut stack: Vec<WildcardState<'a, V>> = Vec::new();
        stack.push(WildcardState { node: self, key: Vec::new() });
        let iter = WildcardIter { patterns, stack };
        proof {
            let segs = segments(iter.patterns@);
            let trees = waiting_keys(iter.stack@);
            lemma_parsed_sound(pattern.bytes());
            assert(walked(trees.drop_last()) =~= Seq::empty());
            let by_segments = |item: (Seq<u8>, Tree<V>)| accepts(segs, item.0);
            let by_pattern = |item: (Seq<u8>, Tree<V>)| glob(pattern.bytes(), item.0);
            assert(by_segments =~= by_pattern);
        }
        iter
    }
}

impl<'a, 'b, V> WildcardIter<'a, 'b, V> {
    /// Whether the nodes to come are well-formed and the pattern has no empty parts.
    pub closed spec fn wf(self) -> bool {
        &&& sound(segments(self.patterns@))
        &&& all_fit(waiting_keys(self.stack@))
    }

    /// The nodes to come, with their keys.
    pub closed spec fn remaining(self) -> Seq<(Seq<u8>, Tree<V>)> {
        accepted(walked(waiting_keys(self.stack@)), segments(self.patterns@))
    }

    /// Returns how `key` stands to a parsed pattern.
    pub fn check_pattern(key: &[u8], patterns: &[Pattern<'_>]) -> (result: WalkResult)
        requires
            sound(segments(patterns@)),
        ensures
            result == verdict(segments(patterns@), key@),
    {
        assert(patterns@.skip(0) =~= patterns@);
        assert(key@.skip(0) =~= key@);
        Self::check_recursive(key, patterns, 0, 0)
    }

    /// Returns how what is left of `key` from `key_idx` on stands to what is left of a parsed
    /// pattern from `pat_idx` on, as [`WildcardIter::check_pattern`] does for those two parts
    /// alone: what lies before does not matter.
    pub fn check_recursive(
        key: &[u8],
        patterns: &[Pattern<'_>],
        key_idx: usize,
        pat_idx: usize,
    ) -> (result: WalkResult)
        requires
            key_idx <= key@.len(),
            pat_idx <= patterns@.len(),
            sound(segments(patterns@)),
        ensures
            result == verdict(
                segments(patterns@.skip(pat_idx as int)),
                key@.skip(key_idx as int),
            ),
        decreases patterns@.len() - pat_idx,
    {
        let ghost segs = segments(patterns@.skip(pat_idx as int));
        let ghost left = key@.skip(key_idx as int);
        assert(segs =~= segments(patterns@).skip(pat_idx as int));
        if pat_idx == patterns.len() {
            // pattern exhausted: children have extra bytes that it can't consume
            return if key_idx == key.len() {
                WalkResult::Match
            } else {
                WalkResult::NoMatch
            };
        }
        if key_idx == key.len() {
            // key exhausted, but more pattern: children could have matches, and the key is one
            // itself if all of the rest can be empty
            proof {
                assert(left =~= Seq::empty());
                lemma_at_end(segs);
            }
            let mut i: usize = pat_idx;
            while i < patterns.len()
                invariant
                    pat_idx <= i <= patterns@.len(),
                    segs == segments(patterns@.skip(pat_idx as int)),
                    forall|j: int| 0 <= j < i - pat_idx ==> (#[trigger] segs[j]) is Any,
                ensures
                    i == patterns@.len() || !(segs[i - pat_idx] is Any),
                    i <= patterns@.len(),
                    forall|j: int| 0 <= j < i - pat_idx ==> (#[trigger] segs[j]) is Any,
                decreases patterns@.len() - i,
            {
                match &patterns[i] {
                    Pattern::Any => {},
                    _ => {
                        break;
                    },
                }
                i = i + 1;
            }
            return if i == patterns.len() {
                WalkResult::MatchAndPartial
            } else {
                WalkResult::PartialMatch
            };
        }
        assert(segs.skip(1) =~= segments(patterns@.skip(pat_idx + 1)));
        match &patterns[pat_idx] {
            Pattern::Literal(bytes) => {
                let remaining = vstd::slice::slice_subrange(key, key_idx, key.len());
                let n: usize = common_prefix_len(remaining, bytes);
                proof {
                    lemma_lcp(left, bytes@);
                    lemma_at_literal(segs, bytes@, left);
                    if starts_with(left, bytes@) {
                        assert(left.skip(bytes@.len() as int) =~= key@.skip(
                            key_idx + bytes@.len(),
                        ));
                    }
                }
                if n == bytes.len() {
                    // full literal match, continue with next pattern
                    Self::check_recursive(key, patterns, key_idx + n, pat_idx + 1)
                } else if n == remaining.len() {
                    // key exhausted mid-literal, children could complete it
                    WalkResult::PartialMatch
                } else {
                    WalkResult::NoMatch
                }
            },
            Pattern::One => {
                // consume one byte
                proof {
                    lemma_at_one(segs, left);
                    assert(left.skip(1) =~= key@.skip(key_idx + 1));
                }
                Self::check_recursive(key, patterns, key_idx + 1, pat_idx + 1)
            },
            Pattern::Any => {
                // try to consume, starting with longest first; child bytes can always be consumed
                // too, so children are explored in any case
                proof {
                    lemma_at_any(segs, left);
                }
                let mut consume: usize = key.len() - key_idx;
                loop
                    invariant
                        consume <= left.len(),
                        left == key@.skip(key_idx as int),
                        key_idx <= key@.len(),
                        pat_idx < patterns@.len(),
                        segs == segments(patterns@.skip(pat_idx as int)),
                        segs.len() > 0,
                        segs[0] is Any,
                        segs.skip(1) == segments(patterns@.skip(pat_idx + 1)),
                        sound(segments(patterns@)),
                        grows(segs, left),
                        forall|c: int|
                            consume < c <= left.len() ==> !accepts(
                                segs.skip(1),
                                #[trigger] left.skip(c),
                            ),
                    decreases consume,
                {
                    assert(key.len() == key@.len() && patterns.len() == patterns@.len());
                    assert(left.skip(consume as int) =~= key@.skip(key_idx + consume));
                    let rest = Self::check_recursive(key, patterns, key_idx + consume, pat_idx + 1);
                    if rest.is_match() {
                        return WalkResult::MatchAndPartial;
                    }
                    if consume == 0 {
                        return WalkResult::PartialMatch;
                    }
                    consume = consume - 1;
                }
            },
        }
    }

    /// Returns the next node whose key matches, and its key.
    pub fn next(&mut self) -> (item: Option<WildcardMatch<'a, V>>)
        requires
            old(self).wf(),
        ensures
            final(self).wf(),
            item is Some <==> old(self).remaining().len() > 0,
            item is Some ==> {
                &&& old(self).remaining()[0] == (item->0.key@, item->0.node@)
                &&& final(self).remaining() == old(self).remaining().drop_first()
            },
            item is None ==> final(self).remaining() == old(self).remaining(),
    {
        let ghost segs = segments(self.patterns@);
        let ghost goal = self.remaining();
        while self.stack.len() > 0
            invariant
                self.wf(),
                segs == segments(self.patterns@),
                goal == old(self).remaining(),
                accepted(walked(waiting_keys(self.stack@)), segs) == goal,
            decreases walked(waiting_keys(self.stack@)).len(),
        {
            let ghost before = waiting_keys(self.stack@);
            let WildcardState { node, mut key } = match self.stack.pop() {
                None => {
                    return None;
                },
                Some(state) => state,
            };
            let ghost under = before.drop_last();
            let ghost t = node@;
            let ghost room = choose|room: int| #[trigger] t.fits(room);
            assert(waiting_keys(self.stack@) =~= under);
            // append current node's label to the accumulated key
            let ghost above = key@;
            key.extend_from_slice(node.label());
            assert(key@ =~= above + t.label);
            let result = Self::check_pattern(key.as_slice(), self.patterns.as_slice());
            let ghost down = walk_all(t.children, key@);
            assert(walked(before) =~= seq![(key@, t)] + (down + walked(under)));
            proof {
                lemma_accepted_first((key@, t), down + walked(under), segs);
            }
            if result.explore_children() {
                let children = node.children();
                let mut i: usize = children.len();
                while i > 0
                    invariant
                        i <= children@.len(),
                        views(children@) == t.children,
                        t.fits(room),
                        self.wf(),
                        segs == segments(self.patterns@),
                        walked(waiting_keys(self.stack@)) == walk_all(
                            t.children.skip(i as int),
                            key@,
                        ) + walked(under),
                    decreases i,
                {
                    let ghost stack = waiting_keys(self.stack@);
                    i = i - 1;
                    self.stack.push(
                        WildcardState {
                            node: &children[i],
                            key: vstd::slice::slice_to_vec(key.as_slice()),
                        },
                    );
                    proof {
                        let child = t.children[i as int];
                        let rest = t.children.skip(i as int);
                        let item = (key@, child);
                        assert(child.fits(room - t.label.len()));
                        assert(waiting_keys(self.stack@) =~= stack.push(item));
                        assert(stack.push(item).drop_last() =~= stack);
                        assert(rest.drop_first() =~= t.children.skip(i + 1));
                    }
                }
                assert(t.children.skip(0) =~= t.children);
            } else {
                proof {
                    lemma_pruned(t, key@, segs);
                }
            }
            if result.is_match() {
                return Some(WildcardMatch { key, node });
            }
        }
        proof {
            reveal(Seq::filter);
        }
        None
    }
}

} // verus!
