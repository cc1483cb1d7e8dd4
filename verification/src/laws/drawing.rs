//! What a drawing of a tree shows.
use vstd::prelude::*;
use crate::listing::{lemma_next_tree, lemma_preorder_levels};
use crate::outline::{
    drawn, line_shown, line_text, lines, lines_all, lossy_text, quoted, shown_as, within, Row,
};
use crate::traversal::{preorder, preorder_all};
use crate::tree::Tree;

verus! {

/// Whether, behind the `i`-th node of a listing, a node on `level` comes before any further up: in
/// a listing in depth first order, whether what stands on that level at or above the node has
/// siblings behind it.
pub open spec fn followed<V>(listing: Seq<(nat, Tree<V>)>, i: int, level: nat) -> bool {
    exists|j: int|
        {
            &&& i < j < listing.len()
            &&& (#[trigger] listing[j]).0 == level
            &&& forall|k: int| i < k < j ==> (#[trigger] listing[k]).0 > level
        }
}

/// The four characters that stand to the left of a node for a level.
pub open spec fn column(lead: Seq<char>, level: nat) -> Seq<char> {
    lead.subrange(4 * level as int, 4 * level as int + 4)
}

/// What stands to the left of the `i`-th node of a listing on levels from `from` on: a column for
/// each level above the node, with a line where siblings follow, and the branch to the node.
spec fn columns<V>(listing: Seq<(nat, Tree<V>)>, i: int, from: nat, lead: Seq<char>) -> bool {
    let level = listing[i].0;
    &&& level >= from
    &&& lead.len() == 4 * (level + 1)
    &&& forall|c: nat|
        from <= c < level ==> #[trigger] column(lead, c) == if followed(
            listing,
            i,
            c,
        ) {
            "│   "@
        } else {
            "    "@
        }
    &&& column(lead, level) == if followed(listing, i, level) {
        "├── "@
    } else {
        "└── "@
    }
}

proof fn lemma_strings()
    ensures
        "│   "@.len() == 4,
        "    "@.len() == 4,
        "├── "@.len() == 4,
        "└── "@.len() == 4,
{
    reveal_strlit("│   ");
    reveal_strlit("    ");
    reveal_strlit("├── ");
    reveal_strlit("└── ");
}

/// What comes before a node in a listing does not matter to what follows it.
proof fn lemma_followed_behind<V>(
    front: Seq<(nat, Tree<V>)>,
    listing: Seq<(nat, Tree<V>)>,
    i: int,
    level: nat,
)
    requires
        0 <= i < listing.len(),
    ensures
        followed(front + listing, i + front.len(), level) <==> followed(listing, i, level),
{
    let n = front.len() as int;
    let all = front + listing;
    if followed(all, i + n, level) {
        let j = choose|j: int|
            {
                &&& i + n < j < all.len()
                &&& (#[trigger] all[j]).0 == level
                &&& forall|k: int| i + n < k < j ==> (#[trigger] all[k]).0 > level
            };
        assert(listing[j - n] == all[j]);
        assert forall|k: int| i < k < j - n implies (#[trigger] listing[k]).0 > level by {
            assert(all[k + n] == listing[k]);
        }
    }
    if followed(listing, i, level) {
        let j = choose|j: int|
            {
                &&& i < j < listing.len()
                &&& (#[trigger] listing[j]).0 == level
                &&& forall|k: int| i < k < j ==> (#[trigger] listing[k]).0 > level
            };
        assert(all[j + n] == listing[j]);
        assert forall|k: int| i + n < k < j + n implies (#[trigger] all[k]).0 > level by {
            assert(all[k] == listing[k - n]);
        }
    }
}

/// A node further up ends what follows.
proof fn lemma_followed_before<V>(
    listing: Seq<(nat, Tree<V>)>,
    back: Seq<(nat, Tree<V>)>,
    i: int,
    level: nat,
)
    requires
        0 <= i < listing.len(),
        back.len() > 0 ==> back[0].0 < level,
    ensures
        followed(listing + back, i, level) <==> followed(listing, i, level),
{
    let n = listing.len() as int;
    let all = listing + back;
    if followed(all, i, level) {
        let j = choose|j: int|
            {
                &&& i < j < all.len()
                &&& (#[trigger] all[j]).0 == level
                &&& forall|k: int| i < k < j ==> (#[trigger] all[k]).0 > level
            };
        if j >= n {
            assert(all[n] == back[0]);
            assert(false);
        }
        assert(listing[j] == all[j]);
        assert forall|k: int| i < k < j implies (#[trigger] listing[k]).0 > level by {
            assert(all[k] == listing[k]);
        }
    }
    if followed(listing, i, level) {
        let j = choose|j: int|
            {
                &&& i < j < listing.len()
                &&& (#[trigger] listing[j]).0 == level
                &&& forall|k: int| i < k < j ==> (#[trigger] listing[k]).0 > level
            };
        assert(all[j] == listing[j]);
        assert forall|k: int| i < k < j implies (#[trigger] all[k]).0 > level by {
            assert(all[k] == listing[k]);
        }
    }
}

/// Everything in the first tree of a row is followed, on the level of the row, exactly if there is
/// a second tree.
proof fn lemma_followed_row<V>(ts: Seq<Tree<V>>, level: nat, i: int)
    requires
        ts.len() > 0,
        0 <= i < preorder(ts[0], level).len(),
    ensures
        followed(preorder_all(ts, level), i, level) <==> ts.len() > 1,
{
    let first = preorder(ts[0], level);
    let rest = preorder_all(ts.drop_first(), level);
    let all = preorder_all(ts, level);
    let n = first.len() as int;
    assert(all == first + rest);
    assert forall|k: int| i < k < n implies (#[trigger] all[k]).0 > level by {
        lemma_preorder_levels(ts[0], level, k);
        assert(all[k] == first[k]);
    }
    if ts.len() > 1 {
        assert(preorder(ts.drop_first()[0], level).len() > 0);
        lemma_next_tree(ts, level);
        assert(all[n].0 == level);
    }
}

/// The lines of a row of trees show the nodes in depth first order, each with its columns.
proof fn lemma_lines_all<V>(ts: Seq<Tree<V>>, prefix: Seq<char>, level: nat, i: int)
    requires
        prefix.len() == 4 * level,
        level > 0,
        0 <= i < preorder_all(ts, level).len(),
    ensures
        lines_all(ts, prefix).len() == preorder_all(ts, level).len(),
        lines_all(ts, prefix)[i].1 == preorder_all(ts, level)[i].1,
        lines_all(ts, prefix)[i].0.take(4 * level as int) == prefix,
        columns(preorder_all(ts, level), i, level, lines_all(ts, prefix)[i].0),
    decreases ts,
{
    lemma_strings();
    lemma_lines_len_all(ts, prefix, level);
    let t = ts[0];
    let is_last = ts.len() == 1;
    let all = preorder_all(ts, level);
    let first = preorder(t, level);
    let down = preorder_all(t.children, level + 1);
    let rest = preorder_all(ts.drop_first(), level);
    let n = first.len() as int;
    let lead = lines_all(ts, prefix)[i].0;
    lemma_lines_len(t, prefix, is_last, level);
    assert(all == first + rest);
    assert(first == seq![(level, t)] + down);
    if i >= n {
        lemma_lines_all(ts.drop_first(), prefix, level, i - n);
        assert(lines_all(ts, prefix)[i] == lines_all(ts.drop_first(), prefix)[i - n]);
        assert(all[i] == rest[i - n]);
        assert forall|c: nat| #[trigger]
            followed(all, i, c) == followed(rest, i - n, c) by {
            lemma_followed_behind(first, rest, i - n, c);
        }
    } else {
        assert(lines_all(ts, prefix)[i] == lines(t, prefix, is_last)[i]);
        lemma_followed_row(ts, level, i);
        if i == 0 {
            assert(lead.take(4 * level as int) =~= prefix);
            let branch = column(lead, level);
            if is_last {
                assert(branch =~= "└── "@);
            } else {
                assert(branch =~= "├── "@);
            }
        } else {
            let bar = if is_last {
                "    "@
            } else {
                "│   "@
            };
            let below = prefix + bar;
            lemma_lines_all(t.children, below, level + 1, i - 1);
            assert(lines(t, prefix, is_last)[i] == lines_all(t.children, below)[i - 1]);
            assert(all[i] == down[i - 1]);
            let head = lead.take(4 * (level + 1) as int);
            assert(head == below);
            assert(lead.take(4 * level as int) =~= head.take(4 * level as int));
            assert(below.take(4 * level as int) =~= prefix);
            assert(column(lead, level) =~= head.skip(4 * level as int));
            assert(below.skip(4 * level as int) =~= bar);
            assert forall|c: nat| c > level implies #[trigger] followed(all, i, c) == followed(
                down,
                i - 1,
                c,
            ) by {
                let one = seq![(level, t)];
                assert(all =~= one + (down + rest));
                if ts.len() > 1 {
                    assert(preorder(ts.drop_first()[0], level).len() > 0);
                    lemma_next_tree(ts, level);
                    assert(rest[0] == all[n]);
                }
                lemma_followed_before(down, rest, i - 1, c);
                lemma_followed_behind(one, down + rest, i - 1, c);
            }
            assert forall|c: nat| level <= c < all[i].0 implies #[trigger] column(lead, c)
                == if followed(all, i, c) {
                "│   "@
            } else {
                "    "@
            } by {
                if c > level {
                    assert(followed(all, i, c) == followed(down, i - 1, c));
                }
            }
        }
    }
}

/// A drawing has as many lines as there are nodes.
proof fn lemma_lines_len<V>(t: Tree<V>, prefix: Seq<char>, is_last: bool, level: nat)
    ensures
        lines(t, prefix, is_last).len() == preorder(t, level).len(),
    decreases t, 1int,
{
    let below = if is_last || prefix.len() == 0 {
        prefix + "    "@
    } else {
        prefix + "│   "@
    };
    lemma_lines_len_all(t.children, below, level + 1);
}

proof fn lemma_lines_len_all<V>(ts: Seq<Tree<V>>, prefix: Seq<char>, level: nat)
    ensures
        lines_all(ts, prefix).len() == preorder_all(ts, level).len(),
    decreases ts, 2int,
{
    if ts.len() > 0 {
        lemma_lines_len(ts[0], prefix, ts.len() == 1, level);
        lemma_lines_len_all(ts.drop_first(), prefix, level);
    }
}

/// A drawing has one line for each node of a tree, in depth first order.
pub proof fn law_drawing_nodes<V>(t: Tree<V>, i: int)
    ensures
        lines(t, Seq::empty(), false).len() == preorder(t, 0).len(),
        0 <= i < preorder(t, 0).len() ==> lines(t, Seq::empty(), false)[i].1 == preorder(
            t,
            0,
        )[i].1,
{
    lemma_lines_len(t, Seq::empty(), false, 0);
    if 0 < i < preorder(t, 0).len() {
        let below = Seq::<char>::empty() + "    "@;
        lemma_strings();
        lemma_lines_all(t.children, below, 1, i - 1);
    }
}

/// Nothing stands to the left of the top. To the left of every other node there are four characters
/// for the top, four for each level between the two, with a line exactly where the node above it on
/// that level has siblings to come, and four for the branch, which is the last one exactly if the
/// node has no siblings to come.
pub proof fn law_drawing_leads<V>(t: Tree<V>, i: int)
    requires
        0 <= i < preorder(t, 0).len(),
    ensures
        ({
            let level = preorder(t, 0)[i].0;
            let lead = lines(t, Seq::empty(), false)[i].0;
            &&& level == 0 <==> i == 0
            &&& level == 0 ==> lead == Seq::<char>::empty()
            &&& level > 0 ==> {
                &&& lead.len() == 4 * (level + 1)
                &&& lead.take(4) == "    "@
                &&& forall|c: nat|
                    1 <= c < level ==> #[trigger] column(lead, c)
                        == if followed(preorder(t, 0), i, c) {
                        "│   "@
                    } else {
                        "    "@
                    }
                &&& column(lead, level) == if followed(preorder(t, 0), i, level) {
                    "├── "@
                } else {
                    "└── "@
                }
            }
        }),
{
    lemma_preorder_levels(t, 0, i);
    law_drawing_nodes(t, i);
    if i > 0 {
        let all = preorder(t, 0);
        let level = all[i].0;
        let below = Seq::<char>::empty() + "    "@;
        let down = preorder_all(t.children, 1);
        let lead = lines(t, Seq::empty(), false)[i].0;
        lemma_strings();
        lemma_lines_all(t.children, below, 1, i - 1);
        assert(below =~= "    "@);
        assert(lines(t, Seq::empty(), false)[i] == lines_all(t.children, below)[i - 1]);
        assert forall|c: nat| #[trigger] followed(all, i, c) == followed(down, i - 1, c) by {
            lemma_followed_behind(seq![(0nat, t)], down, i - 1, c);
        }
    }
}

/// The rows of a drawing are the nodes of a tree in depth first order, with their labels as text
/// and their own values.
pub proof fn law_rows<V>(t: Tree<V>, rows: Seq<Row<'_, V>>, i: int)
    requires
        drawn(rows, lines(t, Seq::empty(), false)),
        0 <= i < rows.len(),
    ensures
        rows.len() == preorder(t, 0).len(),
        rows[i].lead@ == lines(t, Seq::empty(), false)[i].0,
        rows[i].label@ == lossy_text(preorder(t, 0)[i].1.label),
        vstd::utf8::valid_utf8(preorder(t, 0)[i].1.label) ==> rows[i].label@
            == vstd::utf8::decode_utf8(preorder(t, 0)[i].1.label),
        match preorder(t, 0)[i].1.value {
            Some(value) => rows[i].value is Some && *rows[i].value->0 == value,
            None => rows[i].value is None,
        },
{
    law_drawing_nodes(t, i);
    assert(rows[i].shows(lines(t, Seq::empty(), false)[i]));
}

/// Every text that is there is one of those that are written.
pub proof fn law_within(texts: Seq<Seq<char>>, i: int)
    ensures
        within(i, texts) <==> 0 <= i < texts.len(),
{
}

/// A line holds, from left to right, what stands to the left of the node, its label, and in
/// brackets its value, or a dash if it has none; and it ends there.
pub proof fn law_line_text(lead: Seq<char>, label: Seq<char>, shown: Seq<char>)
    ensures
        line_text(lead, label, Some(shown)) == lead + label + seq![' ', '('] + shown + seq![
            ')',
            '\n',
        ],
        line_text(lead, label, None) == lead + label + seq![' ', '(', '-', ')', '\n'],
{
    reveal_strlit(" ");
    reveal_strlit("(");
    reveal_strlit(")");
    reveal_strlit("(-)");
    reveal_strlit("\n");
    assert(line_text(lead, label, Some(shown)) =~= lead + label + seq![' ', '('] + shown + seq![
        ')',
        '\n',
    ]);
    assert(line_text(lead, label, None) =~= lead + label + seq![' ', '(', '-', ')', '\n']);
}

/// The `i`-th line that is written for a tree is that of its `i`-th node in depth first order: with
/// the label of that node in quotes, and its own value as `{:?}` shows it.
pub proof fn law_line_shown<V: std::fmt::Debug>(t: Tree<V>, i: int, text: Seq<char>)
    requires
        0 <= i < preorder(t, 0).len(),
        line_shown(lines(t, Seq::empty(), false)[i], text),
    ensures
        ({
            let lead = lines(t, Seq::empty(), false)[i].0;
            let node = preorder(t, 0)[i].1;
            match node.value {
                Some(value) => exists|shown: Seq<char>| #[trigger]
                    shown_as(value, shown) && text == lead + quoted(lossy_text(node.label)) + seq![
                        ' ',
                        '(',
                    ] + shown + seq![')', '\n'],
                None => text == lead + quoted(lossy_text(node.label)) + seq![
                    ' ',
                    '(',
                    '-',
                    ')',
                    '\n',
                ],
            }
        }),
{
    law_drawing_nodes(t, i);
    let line = lines(t, Seq::empty(), false)[i];
    let label = quoted(lossy_text(line.1.label));
    match line.1.value {
        Some(value) => {
            let shown = choose|shown: Seq<char>| #[trigger]
                shown_as(value, shown) && text == line_text(line.0, label, Some(shown));
            law_line_text(line.0, label, shown);
            assert(shown_as(value, shown));
        },
        None => {
            law_line_text(line.0, label, Seq::empty());
        },
    }
}

} // verus!
