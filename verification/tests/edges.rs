//! Borderline inputs.
use fast_radix_trie::{
    BorrowedBytes, Node, Pattern, WalkResult, WildcardFilter, WildcardIter, MAX_LABEL_LEN,
};

fn found<V, K: ?Sized + BorrowedBytes>(root: &Node<V>, pattern: &K) -> Vec<String> {
    let mut iter = root.wildcard_iter(pattern);
    std::iter::from_fn(|| iter.next())
        .map(|hit| String::from_utf8(hit.key).unwrap())
        .collect()
}

fn check(key: &str, pattern: &str) -> WalkResult {
    let patterns = WildcardFilter::parse(pattern.as_bytes());
    WildcardIter::<()>::check_pattern(key.as_bytes(), &patterns)
}

#[test]
fn only_what_lies_behind_the_indices_is_checked() {
    let patterns = WildcardFilter::parse(b"foo?b*");
    let other = WildcardFilter::parse(b"b*");
    for rest in ["", "b", "bar", "c"] {
        let key = format!("foox{rest}");
        let whole = WildcardIter::<()>::check_pattern(key.as_bytes(), &patterns);
        assert_eq!(whole, check(rest, "b*"));
        for (junk, n) in [("foo!", 4), ("", 0), ("something else", 14)] {
            let key = format!("{junk}{rest}");
            let left = WildcardIter::<()>::check_recursive(key.as_bytes(), &patterns, n, 2);
            assert_eq!(left, whole);
            let left = WildcardIter::<()>::check_recursive(key.as_bytes(), &other, n, 0);
            assert_eq!(left, whole);
        }
    }
}

#[test]
fn empty_key_is_the_top() {
    let mut root = Node::root();
    assert_eq!(root.get(""), None);
    assert_eq!(root.insert("", 1), None);
    assert_eq!(root.get(""), Some(&1));
    assert_eq!(root.children_len(), 0);
    assert_eq!(root.remove(""), Some(1));
    assert_eq!(root.get(""), None);
}

#[test]
fn labels_are_cut_at_the_limit() {
    for (len, labels) in [
        (255, vec![255]),
        (256, vec![255, 1]),
        (510, vec![255, 255]),
        (511, vec![255, 255, 1]),
    ] {
        let key = vec![b'k'; len];
        let mut root = Node::root();
        root.insert(&key, 1);
        let mut iter = root.iter();
        let met: Vec<_> = std::iter::from_fn(|| iter.next())
            .skip(1)
            .map(|(_, node)| node.label_len())
            .collect();
        assert_eq!(met, labels);
        assert!(met.iter().all(|n| *n <= MAX_LABEL_LEN));
        assert_eq!(root.get(&key), Some(&1));
        assert_eq!(root.get_node(&key).unwrap().value(), Some(&1));
    }
}

#[test]
fn merge_stops_at_the_limit() {
    let child = Node::new(&[b'b'; 55], vec![], Some(1));
    let mut node = Node::new(&[b'a'; 200], vec![child], None);
    node.try_merge_child();
    assert_eq!((node.label_len(), node.children_len()), (255, 0));

    let child = Node::new(&[b'b'; 56], vec![], Some(1));
    let mut node = Node::new(&[b'a'; 200], vec![child], None);
    node.try_merge_child();
    assert_eq!((node.label_len(), node.children_len()), (200, 1));
}

#[test]
fn split_needs_a_label_that_fits() {
    let mut root = Node::root();
    root.insert(&[b'a'; 300], 1);
    root.insert("b", 2);
    // the part below 255 bytes would need a label of 300 bytes
    assert!(!root.can_split_by_prefix(&[b'a'; 260]));
    assert!(!root.can_split_by_prefix(&[b'a'; 300]));
    assert!(root.can_split_by_prefix(&[b'a'; 200]));
    assert!(root.can_split_by_prefix(&[b'a'; 255]));
    assert!(root.can_split_by_prefix(&[b'a'; 301]));
    let part = root.split_by_prefix(&[b'a'; 200]).unwrap();
    assert_eq!(part.label_len(), 255);
    assert_eq!(part.get(&[b'a'; 300]), Some(&1));
    assert_eq!(root.get("b"), Some(&2));
}

#[test]
fn split_within_the_label_of_the_top() {
    // the top is never split off, and no child is mistaken for it
    for prefix in ["", "a", "app", "apple"] {
        let mut root = Node::new(
            b"apple",
            vec![
                Node::new(b"apple", vec![], Some(1)),
                Node::new(b"banana", vec![], Some(2)),
            ],
            None,
        );
        let before = root.clone();
        assert!(root.can_split_by_prefix(prefix));
        assert_eq!(root.split_by_prefix(prefix), None);
        assert_eq!(root, before);
        assert_eq!(root.get("apple"), None);
        assert_eq!(root.get("appleapple"), Some(&1));
    }
    // behind its label a split goes on as ever
    let mut root = Node::new(
        b"apple",
        vec![
            Node::new(b"apple", vec![], Some(1)),
            Node::new(b"banana", vec![], Some(2)),
        ],
        None,
    );
    let part = root.split_by_prefix("applea").unwrap();
    assert_eq!(part.label(), b"appleapple");
    assert_eq!(part.get("appleapple"), Some(&1));
    assert_eq!(root.get("appleapple"), None);
    assert_eq!(root.get("applebanana"), Some(&2));
    // nothing is split off at an empty prefix of an empty label
    let mut root = Node::root();
    root.insert("x", 1);
    assert!(root.can_split_by_prefix(""));
    assert_eq!(root.split_by_prefix(""), None);
    assert_eq!(root.get("x"), Some(&1));
}

#[test]
fn split_in_the_middle_of_a_label_does_not_merge_the_rest() {
    let mut root = Node::root();
    root.insert("axy", 1);
    root.insert("ab", 2);
    let part = root.split_by_prefix("ax").unwrap();
    assert_eq!(part.label(), b"axy");
    let a = root.get_node("a").unwrap();
    assert_eq!((a.label(), a.children_len()), (&b"a"[..], 1));
    // a full match does
    let mut root = Node::root();
    root.insert("ax", 1);
    root.insert("ab", 2);
    root.split_by_prefix("ax").unwrap();
    assert!(root.get_node("a").is_none());
    assert_eq!(root.children()[0].label(), b"ab");
}

#[test]
fn keys_that_end_in_a_label() {
    let mut root = Node::root();
    root.insert("abc", 1);
    assert_eq!(root.get("ab"), None);
    assert!(root.get_node("ab").is_none());
    assert!(root.get_node_mut("ab").is_none());
    assert!(root.get_mut("ab").is_none());
    assert_eq!(root.remove("ab"), None);
    assert_eq!(root.get_prefix_node("ab").unwrap().0, 2);
    let (len, node) = root.get_prefix_node_mut("ab").unwrap();
    assert_eq!(len, 2);
    node.set_value(9);
    assert_eq!(root.get("abc"), Some(&9));
    assert!(root.get_prefix_node_mut("ac").is_none());
}

#[test]
fn longest_common_prefix_lengths() {
    let mut root = Node::root();
    root.insert("romane", 1);
    root.insert("romulus", 2);
    assert_eq!(root.longest_common_prefix_len(""), 0);
    assert_eq!(root.longest_common_prefix_len("x"), 0);
    assert_eq!(root.longest_common_prefix_len("ro"), 2);
    assert_eq!(root.longest_common_prefix_len("romp"), 3);
    assert_eq!(root.longest_common_prefix_len("romulux"), 6);
    assert_eq!(root.longest_common_prefix_len("romanesque"), 6);
}

#[test]
fn parts_of_a_node() {
    let mut node = Node::new(b"abc", vec![Node::new(b"d", vec![], None)], Some(5));
    node.label_mut()[1] = b'x';
    assert_eq!(node.label(), b"axc");
    node.children_mut()[0].set_value(6);
    assert_eq!(node.children()[0].value(), Some(&6));
    assert_eq!(node.child_with_first(b'd').unwrap().value(), Some(&6));
    assert!(node.child_with_first(b'e').is_none());
    *node.child_with_first_mut(b'd').unwrap().value_mut().unwrap() = 7;
    assert_eq!(node.child_index_with_first(b'd'), Some(0));
    assert_eq!(node.child_index_with_first(b'e'), None);
    let parts = node.as_mut();
    assert_eq!(parts.label(), b"axc");
    *parts.into_value_mut().unwrap() = 8;
    assert_eq!(node.take_value(), Some(8));
    assert_eq!(node.take_value(), None);
    assert_eq!(node.take_children().unwrap()[0].value(), Some(&7));
    assert!(node.take_children().is_none());
    node.replace_label(b"new");
    assert_eq!(node.label(), b"new");
}

#[test]
fn split_at_orders_the_parts() {
    let mut node = Node::new(b"test", vec![], Some(1));
    assert_eq!(node.split_at(2, Some(Node::new(b"am", vec![], Some(2)))), 0);
    assert_eq!(node.children_first_bytes(), b"as".to_vec());
    let mut node = Node::new(b"test", vec![], Some(1));
    assert_eq!(node.split_at(2, Some(Node::new(b"xt", vec![], Some(2)))), 1);
    assert_eq!(node.children_first_bytes(), b"sx".to_vec());
    let mut node = Node::new(b"test", vec![], Some(1));
    assert_eq!(node.split_at(3, None), 0);
    assert_eq!((node.label(), node.value()), (&b"tes"[..], None));
    assert_eq!(node.children()[0].value(), Some(&1));
}

#[test]
fn star_matches_nothing_too() {
    let mut root = Node::root();
    for key in ["foo", "foobar", "fo"] {
        root.insert(key, ());
    }
    assert_eq!(found(&root, "foo*"), vec!["foo", "foobar"]);
    assert_eq!(found(&root, "*foo"), vec!["foo"]);
    assert_eq!(found(&root, "f*o"), vec!["fo", "foo"]);
    assert_eq!(found(&root, "foo**"), vec!["foo", "foobar"]);
    assert_eq!(found(&root, "foo*?"), vec!["foobar"]);
    assert_eq!(found(&root, ""), vec![""]);
}

#[test]
fn patterns_without_wildcards_match_themselves() {
    let mut root = Node::root();
    for key in ["ab", "abc", "b"] {
        root.insert(key, ());
    }
    assert_eq!(found(&root, "ab"), vec!["ab"]);
    assert_eq!(found(&root, "a"), Vec::<String>::new());
    assert_eq!(found(&root, "ab\\c"), vec!["abc"]);
}

#[test]
fn escapes_in_patterns() {
    assert_eq!(WildcardFilter::parse(b""), vec![]);
    // an escape at the end stands for nothing
    assert_eq!(WildcardFilter::parse(b"ab\\"), vec![Pattern::Literal(b"ab")]);
    assert_eq!(WildcardFilter::parse(b"\\\\"), vec![Pattern::Literal(b"\\")]);
    assert_eq!(
        WildcardFilter::parse(b"a\\bc?"),
        vec![Pattern::Literal(b"a"), Pattern::Literal(b"bc"), Pattern::One]
    );
    assert_eq!(
        WildcardFilter::parse(b"*\\*?"),
        vec![Pattern::Any, Pattern::Literal(b"*"), Pattern::One]
    );
    assert_eq!(
        WildcardFilter::parse(b"?*?"),
        vec![Pattern::One, Pattern::One, Pattern::Any]
    );
}

#[test]
fn keys_against_patterns() {
    assert_eq!(check("foo", "foo"), WalkResult::Match);
    assert_eq!(check("fo", "foo"), WalkResult::PartialMatch);
    assert_eq!(check("fx", "foo"), WalkResult::NoMatch);
    assert_eq!(check("foox", "foo"), WalkResult::NoMatch);
    assert_eq!(check("foo", "foo*"), WalkResult::MatchAndPartial);
    assert_eq!(check("foox", "foo*"), WalkResult::MatchAndPartial);
    assert_eq!(check("foo", "foo*?"), WalkResult::PartialMatch);
    assert_eq!(check("foox", "*y"), WalkResult::PartialMatch);
    assert_eq!(check("x", "?"), WalkResult::Match);
    assert_eq!(check("", "?"), WalkResult::PartialMatch);
    assert_eq!(check("", ""), WalkResult::Match);
    assert_eq!(check("abcabc", "*abc"), WalkResult::MatchAndPartial);
    assert!(WalkResult::MatchAndPartial.is_match());
    assert!(WalkResult::MatchAndPartial.explore_children());
    assert!(!WalkResult::PartialMatch.is_match());
    assert!(!WalkResult::Match.explore_children());
}

#[test]
fn labels_as_text() {
    let node: Node<()> = Node::new("añb".as_bytes(), vec![], None);
    assert_eq!(node.label_str_lossy(), "añb");
    let node: Node<()> = Node::new(b"a\xffb", vec![], None);
    assert_eq!(node.label_str_lossy(), "a\u{fffd}b");
}

#[test]
fn outline_of_a_tree() {
    let mut root = Node::root();
    root.insert("a", 1);
    root.insert("apple", 2);
    root.insert("apply", 3);
    root.insert("box", 4);
    let rows: Vec<_> = root
        .outline()
        .iter()
        .map(|row| (row.lead.clone(), row.label.clone(), row.value.copied()))
        .collect();
    let expected = [
        ("", "", None),
        ("    ├── ", "a", Some(1)),
        ("    │   └── ", "ppl", None),
        ("    │       ├── ", "e", Some(2)),
        ("    │       └── ", "y", Some(3)),
        ("    └── ", "box", Some(4)),
    ];
    assert_eq!(rows.len(), expected.len());
    for (row, (lead, label, value)) in rows.iter().zip(expected) {
        assert_eq!((row.0.as_str(), row.1.as_str(), row.2), (lead, label, value));
    }
}

#[test]
fn debug_draws_the_tree() {
    let mut root = Node::root();
    root.insert("a", 1);
    root.insert("apple", 2);
    root.insert("apply", 3);
    root.insert("box", 4);
    let expected = [
        "\"\" (-)\n",
        "    ├── \"a\" (1)\n",
        "    │   └── \"ppl\" (-)\n",
        "    │       ├── \"e\" (2)\n",
        "    │       └── \"y\" (3)\n",
        "    └── \"box\" (4)\n",
    ]
    .concat();
    assert_eq!(format!("{root:?}"), expected);
    // the drawing has one form only
    assert_eq!(format!("{root:#?}"), expected);
    assert_eq!(format!("{root:>100?}"), expected);
    let rows = root.outline();
    assert_eq!(rows.iter().map(|row| row.text()).collect::<String>(), expected);
    assert_eq!(format!("{:?}", Node::<u8>::root()), "\"\" (-)\n");
}

#[test]
fn debug_shows_labels_and_values_in_their_own_form() {
    let leaf = Node::new(b"a\xffb", vec![], Some("x"));
    let root = Node::new(b"\"\n", vec![leaf], Some("y z"));
    assert_eq!(
        format!("{root:?}"),
        "\"\\\"\\n\" (\"y z\")\n    └── \"a\u{fffd}b\" (\"x\")\n"
    );
    let inner = Some(Node::new(b"k", vec![], Some(Some(1))));
    assert_eq!(format!("{inner:?}"), "Some(\"k\" (Some(1))\n)");
}

#[test]
fn lines_of_a_drawing() {
    let root = Node::new(b"x", vec![Node::new(b"y", vec![], Some(1))], None);
    let rows = root.outline();
    assert_eq!(rows[0].line("L", None), "L (-)\n");
    assert_eq!(rows[1].line("L", Some("V")), "    └── L (V)\n");
    assert_eq!(rows[0].text(), "\"x\" (-)\n");
    assert_eq!(rows[1].text(), "    └── \"y\" (1)\n");
}

#[test]
fn debug_shows_each_node_with_its_own_value() {
    let mut root = Node::root();
    root.insert("foo", 1);
    root.insert("bar", 2);
    root.insert("baz", 3);
    let expected = [
        "\"\" (-)\n",
        "    ├── \"ba\" (-)\n",
        "    │   ├── \"r\" (2)\n",
        "    │   └── \"z\" (3)\n",
        "    └── \"foo\" (1)\n",
    ]
    .concat();
    assert_eq!(format!("{root:?}"), expected);
}
