# fast_radix_trie

A radix tree over byte strings, verified with Verus.

`Node<V>` is the executable tree: a label of at most 255 bytes, an optional value and the nodes
below it. Its view is a `Tree<V>`, and every operation states which tree it leaves behind and what
it returns. Keys run through the label of the node they start from, so a part that was split off
can be used like any other tree.

| module | what it holds |
| --- | --- |
| `tree` | the model: trees, and what each operation makes of them |
| `bytes` | keys, prefixes and the order of keys |
| `node` | the executable tree and its elementary operations |
| `lookup`, `prefix`, `common_prefixes` | finding nodes by a key, a prefix, or along a key |
| `insertion`, `entry` | making places for keys |
| `removal` | taking values and branches out, merging and splitting |
| `traversal`, `iter`, `iter_mut` | depth first and breadth first order |
| `pattern`, `wildcard` | what wildcard patterns mean, and searching by them |
| `rewriting` | what writing to the values of a tree makes of it |
| `equality`, `outline` | comparing, copying and drawing trees |
| `laws` | what holds of whole trees |

A tree is well-formed (`Tree::valid`) if labels and numbers of children stay within their limits
and only its top has an empty label. The operations on keys, the traversals and the searches ask for
that, and those that change a tree keep it. So do they keep `ordered` (children in ascending order
of their first bytes) and `distinct` (no first byte twice); laws ask for them where they are needed.
The elementary operations of `node`, such as `add_child` or `replace_label`, neither ask for any of
this nor keep it. As long as no key is longer than 255 bytes, inserting and removing also keep a
tree `tidy`, and its keys and values then determine its shape.

Three conditions cannot be read off a call and have a function that tests them: `is_valid` for a
tree that was put together by hand, `has_room` before `insert` and `entry` (a node has at most 255
children), and `can_split_by_prefix` before `split_by_prefix` (the part that is split off needs a
label that fits).

Nodes are drawn as trees by `{:?}`, one line for each node. `fmt` states which lines it hands to
the formatter, in which order, and when it stops; `Node::outline` and `Row` give the same lines to
other callers.

Four functions are trusted, all in `outline`, where they call the standard library:
`from_utf8_lossy`, `quote` and `show`, which make text of labels and values, and `write_str`, which
hands the drawing over.

`app/` gives the iterators the standard `Iterator` trait, for trees that it has tested.
