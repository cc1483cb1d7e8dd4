//! What a traversal for writing makes of a tree.
use vstd::prelude::*;
use crate::bytes::starts_with;
use crate::traversal::{breadth_first, lemma_breadth_first_step, lemma_unwound_step, row, unwound};
use crate::tree::{slot, Tree};

verus! {

/// A tree behind a mutable reference that waits in a traversal: its level, what it is now and what
/// it will be when nobody can write to it any more.
#[verifier::ext_equal]
pub ghost struct Lent<V> {
    pub level: nat,
    pub now: Tree<V>,
    pub later: Tree<V>,
}

impl<V> Lent<V> {
    /// A tree that is `now` one thing and `later` another.
    pub open spec fn on(level: usize, now: Tree<V>, later: Tree<V>) -> Self {
        Lent { level: level as nat, now, later }
    }

    /// Whether only values change, and none comes or goes: at the top and, as far as their number
    /// goes, in the children.
    pub open spec fn keeps_shape(self) -> bool {
        &&& self.later.label == self.now.label
        &&& self.later.value is Some <==> self.now.value is Some
        &&& self.later.children.len() == self.now.children.len()
    }

    /// The children, one level further down.
    pub open spec fn children(self) -> Seq<Lent<V>> {
        Seq::new(
            self.now.children.len(),
            |i: int|
                Lent {
                    level: self.level + 1,
                    now: self.now.children[i],
                    later: self.later.children[i],
                },
        )
    }
}

/// The trees as they are now.
pub open spec fn nows<V>(lent: Seq<Lent<V>>) -> Seq<(nat, Tree<V>)> {
    Seq::new(lent.len(), |i: int| (lent[i].level, lent[i].now))
}

/// The trees as they will be.
pub open spec fn laters<V>(lent: Seq<Lent<V>>) -> Seq<(nat, Tree<V>)> {
    Seq::new(lent.len(), |i: int| (lent[i].level, lent[i].later))
}

/// One step of a traversal for writing in depth first order: the tree on the top of the stack gives
/// way to its children.
pub open spec fn popped<V>(before: Seq<Lent<V>>, after: Seq<Lent<V>>) -> bool {
    &&& before.len() > 0
    &&& before.last().keeps_shape()
    &&& after == before.drop_last() + before.last().children().reverse()
}

/// One step of a traversal for writing in breadth first order: the tree at the front of the queue
/// is taken and its children join the end.
pub open spec fn dequeued<V>(before: Seq<Lent<V>>, after: Seq<Lent<V>>) -> bool {
    &&& before.len() > 0
    &&& before[0].keeps_shape()
    &&& after == before.drop_first() + before[0].children()
}

/// A whole traversal for writing in depth first order, stack by stack, from `t` to what becomes
/// of it.
pub open spec fn depth_first_run<V>(stacks: Seq<Seq<Lent<V>>>, t: Tree<V>, u: Tree<V>) -> bool {
    &&& stacks.len() > 0
    &&& stacks[0] == seq![Lent { level: 0, now: t, later: u }]
    &&& stacks.last().len() == 0
    &&& forall|i: int, j: int|
        0 <= i && j == i + 1 && j < stacks.len() ==> popped(
            #[trigger] stacks[i],
            #[trigger] stacks[j],
        )
}

/// A whole traversal for writing in breadth first order, queue by queue, from `t` to what becomes
/// of it.
pub open spec fn breadth_first_run<V>(queues: Seq<Seq<Lent<V>>>, t: Tree<V>, u: Tree<V>) -> bool {
    &&& queues.len() > 0
    &&& queues[0] == seq![Lent { level: 0, now: t, later: u }]
    &&& queues.last().len() == 0
    &&& forall|i: int, j: int|
        0 <= i && j == i + 1 && j < queues.len() ==> dequeued(
            #[trigger] queues[i],
            #[trigger] queues[j],
        )
}

/// Whether there is no value before and after, or one on both sides, related by `rel`.
pub open spec fn related<V>(a: Option<V>, b: Option<V>, rel: spec_fn(V, V) -> bool) -> bool {
    match (a, b) {
        (Some(x), Some(y)) => rel(x, y),
        (None, None) => true,
        _ => false,
    }
}

/// Whether `b` has the shape and the labels of `a`, and each of its values is related to the one
/// in the same place of `a`.
pub open spec fn rewritten<V>(a: Tree<V>, b: Tree<V>, rel: spec_fn(V, V) -> bool) -> bool
    decreases a,
{
    &&& a.label == b.label
    &&& related(a.value, b.value, rel)
    &&& a.children.len() == b.children.len()
    &&& forall|i: int|
        0 <= i < a.children.len() ==> rewritten(
            #[trigger] a.children[i],
            #[trigger] b.children[i],
            rel,
        )
}

/// Whether every tree of a stack or a queue will be [`rewritten`].
pub open spec fn all_rewritten<V>(lent: Seq<Lent<V>>, rel: spec_fn(V, V) -> bool) -> bool {
    forall|k: int| 0 <= k < lent.len() ==> rewritten((#[trigger] lent[k]).now, lent[k].later, rel)
}

/// A tree whose children will be rewritten will be rewritten itself.
proof fn lemma_rewritten_top<V>(top: Lent<V>, rel: spec_fn(V, V) -> bool)
    requires
        top.keeps_shape(),
        related(top.now.value, top.later.value, rel),
        all_rewritten(top.children(), rel),
    ensures
        rewritten(top.now, top.later, rel),
{
    assert forall|i: int| 0 <= i < top.now.children.len() implies rewritten(
        #[trigger] top.now.children[i],
        #[trigger] top.later.children[i],
        rel,
    ) by {
        let child = top.children()[i];
        assert(rewritten(child.now, child.later, rel));
    }
}

/// From some stack of a traversal in depth first order on, everything will be rewritten.
pub proof fn lemma_depth_first_rewritten<V>(
    stacks: Seq<Seq<Lent<V>>>,
    t: Tree<V>,
    u: Tree<V>,
    rel: spec_fn(V, V) -> bool,
    i: int,
)
    requires
        depth_first_run(stacks, t, u),
        forall|k: int|
            0 <= k < stacks.len() - 1 ==> related(
                (#[trigger] stacks[k]).last().now.value,
                stacks[k].last().later.value,
                rel,
            ),
        0 <= i < stacks.len(),
    ensures
        all_rewritten(stacks[i], rel),
    decreases stacks.len() - i,
{
    if i + 1 < stacks.len() {
        lemma_depth_first_rewritten(stacks, t, u, rel, i + 1);
        let before = stacks[i];
        let after = stacks[i + 1];
        assert(popped(before, after));
        let top = before.last();
        let under = before.drop_last();
        let below = top.children();
        let n = below.len();
        assert forall|k: int| 0 <= k < n implies rewritten(
            (#[trigger] below[k]).now,
            below[k].later,
            rel,
        ) by {
            assert(after[under.len() + (n - 1 - k)] == below[k]);
        }
        lemma_rewritten_top(top, rel);
        assert forall|k: int| 0 <= k < before.len() implies rewritten(
            (#[trigger] before[k]).now,
            before[k].later,
            rel,
        ) by {
            if k < under.len() {
                assert(after[k] == before[k]);
            }
        }
    }
}

/// From some queue of a traversal in breadth first order on, everything will be rewritten.
pub proof fn lemma_breadth_first_rewritten<V>(
    queues: Seq<Seq<Lent<V>>>,
    t: Tree<V>,
    u: Tree<V>,
    rel: spec_fn(V, V) -> bool,
    i: int,
)
    requires
        breadth_first_run(queues, t, u),
        forall|k: int|
            0 <= k < queues.len() - 1 ==> related(
                (#[trigger] queues[k])[0].now.value,
                queues[k][0].later.value,
                rel,
            ),
        0 <= i < queues.len(),
    ensures
        all_rewritten(queues[i], rel),
    decreases queues.len() - i,
{
    if i + 1 < queues.len() {
        lemma_breadth_first_rewritten(queues, t, u, rel, i + 1);
        let before = queues[i];
        let after = queues[i + 1];
        assert(dequeued(before, after));
        let behind = before.drop_first();
        let below = before[0].children();
        assert forall|k: int| 0 <= k < below.len() implies rewritten(
            (#[trigger] below[k]).now,
            below[k].later,
            rel,
        ) by {
            assert(after[behind.len() + k] == below[k]);
        }
        lemma_rewritten_top(before[0], rel);
        assert forall|k: int| 0 <= k < before.len() implies rewritten(
            (#[trigger] before[k]).now,
            before[k].later,
            rel,
        ) by {
            if k > 0 {
                assert(after[k - 1] == before[k]);
            }
        }
    }
}

/// What is left of a traversal in depth first order lists the trees that it takes, as they are and
/// as they will be.
pub proof fn lemma_depth_first_lists<V>(
    stacks: Seq<Seq<Lent<V>>>,
    t: Tree<V>,
    u: Tree<V>,
    i: int,
    k: int,
)
    requires
        depth_first_run(stacks, t, u),
        0 <= i <= k < stacks.len(),
    ensures
        unwound(nows(stacks[i])).len() == stacks.len() - 1 - i,
        unwound(laters(stacks[i])).len() == stacks.len() - 1 - i,
        k < stacks.len() - 1 ==> {
            let top = stacks[k].last();
            &&& unwound(nows(stacks[i]))[k - i] == (top.level, top.now)
            &&& unwound(laters(stacks[i]))[k - i] == (top.level, top.later)
        },
    decreases stacks.len() - i,
{
    if i + 1 < stacks.len() {
        let before = stacks[i];
        let after = stacks[i + 1];
        assert(popped(before, after));
        let top = before.last();
        lemma_unwound_step(nows(before));
        lemma_unwound_step(laters(before));
        assert(nows(after) =~= nows(before).drop_last() + row(
            top.now.children,
            top.level + 1,
        ).reverse());
        assert(laters(after) =~= laters(before).drop_last() + row(
            top.later.children,
            top.level + 1,
        ).reverse());
        lemma_depth_first_lists(stacks, t, u, i + 1, if k > i {
            k
        } else {
            i + 1
        });
    }
}

/// What is left of a traversal in breadth first order lists the trees that it takes, as they are
/// and as they will be.
pub proof fn lemma_breadth_first_lists<V>(
    queues: Seq<Seq<Lent<V>>>,
    t: Tree<V>,
    u: Tree<V>,
    i: int,
    k: int,
)
    requires
        breadth_first_run(queues, t, u),
        0 <= i <= k < queues.len(),
    ensures
        breadth_first(nows(queues[i])).len() == queues.len() - 1 - i,
        breadth_first(laters(queues[i])).len() == queues.len() - 1 - i,
        k < queues.len() - 1 ==> {
            let front = queues[k][0];
            &&& breadth_first(nows(queues[i]))[k - i] == (front.level, front.now)
            &&& breadth_first(laters(queues[i]))[k - i] == (front.level, front.later)
        },
    decreases queues.len() - i,
{
    if i + 1 < queues.len() {
        let before = queues[i];
        let after = queues[i + 1];
        assert(dequeued(before, after));
        let front = before[0];
        lemma_breadth_first_step(nows(before));
        lemma_breadth_first_step(laters(before));
        assert(nows(after) =~= nows(before).drop_first() + row(
            front.now.children,
            front.level + 1,
        ));
        assert(laters(after) =~= laters(before).drop_first() + row(
            front.later.children,
            front.level + 1,
        ));
        lemma_breadth_first_lists(queues, t, u, i + 1, if k > i {
            k
        } else {
            i + 1
        });
    }
}

/// The search among children goes by their labels alone.
proof fn lemma_slot_same<V>(ts: Seq<Tree<V>>, us: Seq<Tree<V>>, b: u8)
    requires
        ts.len() == us.len(),
        forall|i: int| 0 <= i < ts.len() ==> (#[trigger] ts[i]).label == (#[trigger] us[i]).label,
    ensures
        slot(ts, b) == slot(us, b),
    decreases ts.len(),
{
    if ts.len() > 0 {
        assert(ts[0].label == us[0].label);
        assert forall|i: int| 0 <= i < ts.skip(1).len() implies (#[trigger] ts.skip(1)[i]).label
            == (#[trigger] us.skip(1)[i]).label by {
            assert(ts[i + 1].label == us[i + 1].label);
        }
        lemma_slot_same(ts.skip(1), us.skip(1), b);
    }
}

/// A key leads to the same place in a tree and in what it was rewritten to.
pub proof fn lemma_rewritten_find<V>(
    a: Tree<V>,
    b: Tree<V>,
    rel: spec_fn(V, V) -> bool,
    key: Seq<u8>,
)
    requires
        rewritten(a, b, rel),
    ensures
        match (a.find(key), b.find(key)) {
            (Some(x), Some(y)) => rewritten(x, y, rel),
            (None, None) => true,
            _ => false,
        },
    decreases a,
{
    if starts_with(key, a.label) && key.len() > a.label.len() {
        let rest = key.skip(a.label.len() as int);
        let i = slot(a.children, rest[0]) as int;
        assert forall|j: int| 0 <= j < a.children.len() implies (#[trigger] a.children[j]).label
            == (#[trigger] b.children[j]).label by {
            assert(rewritten(a.children[j], b.children[j], rel));
        }
        lemma_slot_same(a.children, b.children, rest[0]);
        if i < a.children.len() {
            assert(rewritten(a.children[i], b.children[i], rel));
            lemma_rewritten_find(a.children[i], b.children[i], rel, rest);
        }
    }
}

/// What a tree is rewritten to needs the same room and has the same form.
pub proof fn lemma_rewritten_form<V>(
    a: Tree<V>,
    b: Tree<V>,
    rel: spec_fn(V, V) -> bool,
    room: int,
)
    requires
        rewritten(a, b, rel),
    ensures
        a.fits(room) <==> b.fits(room),
        a.ordered() <==> b.ordered(),
        a.distinct() <==> b.distinct(),
        a.compact() <==> b.compact(),
    decreases a,
{
    let below = room - a.label.len();
    assert forall|i: int|
        #![trigger a.children[i]]
        #![trigger b.children[i]]
        0 <= i < a.children.len() implies {
        &&& a.children[i].label == b.children[i].label
        &&& a.children[i].needed() <==> b.children[i].needed()
        &&& a.children[i].fits(below) <==> b.children[i].fits(below)
        &&& a.children[i].ordered() <==> b.children[i].ordered()
        &&& a.children[i].distinct() <==> b.children[i].distinct()
        &&& a.children[i].compact() <==> b.children[i].compact()
    } by {
        assert(rewritten(a.children[i], b.children[i], rel));
        lemma_rewritten_form(a.children[i], b.children[i], rel, below);
    }
}

} // verus!
