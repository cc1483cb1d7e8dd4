//! What holds of whole trees, on chosen values.
use fast_radix_trie::{Entry, Node};

fn tree(keys: &[&str]) -> Node<usize> {
    let mut root = Node::root();
    for (i, key) in keys.iter().enumerate() {
        assert!(root.has_room(*key));
        root.insert(*key, i);
    }
    root
}

/// The keys that have a value, in the order in which they are met, with their values.
fn entries(root: &Node<usize>) -> Vec<(String, usize)> {
    let mut iter = root.wildcard_iter("*");
    std::iter::from_fn(|| iter.next())
        .filter_map(|found| Some((found.key, *found.node.value()?)))
        .map(|(key, value)| (String::from_utf8(key).unwrap(), value))
        .collect()
}

/// The levels and labels in depth first order.
fn shape(root: &Node<usize>) -> Vec<(usize, Vec<u8>)> {
    let mut iter = root.iter();
    std::iter::from_fn(|| iter.next())
        .map(|(level, node)| (level, node.label().to_vec()))
        .collect()
}

const KEYS: [&str; 7] = ["a", "apple", "applesauce", "apply", "abort", "abs", "box"];

#[test]
fn insert_changes_one_key() {
    let mut root = tree(&KEYS);
    assert_eq!(root.insert("abacus", 70), None);
    assert_eq!(root.insert("apple", 71), Some(1));
    for (i, key) in KEYS.iter().enumerate() {
        let expected = if *key == "apple" { 71 } else { i };
        assert_eq!(root.get(*key), Some(&expected));
    }
    assert_eq!(root.get("abacus"), Some(&70));
    assert_eq!(root.get("ab"), None);
}

#[test]
fn last_insert_stays() {
    let mut root = tree(&["k"]);
    assert_eq!(root.insert("k", 8), Some(0));
    assert_eq!(root.insert("k", 9), Some(8));
    assert_eq!(entries(&root), vec![("k".to_string(), 9)]);
}

#[test]
fn insert_order_does_not_matter() {
    let mut a = Node::root();
    a.insert("romane", 1);
    a.insert("romulus", 2);
    let mut b = Node::root();
    b.insert("romulus", 2);
    b.insert("romane", 1);
    assert_eq!(entries(&a), entries(&b));
    assert_eq!(a, b);
}

#[test]
fn any_order_builds_the_same_tree() {
    let pairs: Vec<_> = KEYS.iter().enumerate().collect();
    let expected = tree(&KEYS);
    for start in 0..pairs.len() {
        let mut root = Node::root();
        for (value, key) in pairs[start..].iter().chain(&pairs[..start]).rev() {
            root.insert(**key, *value);
        }
        assert_eq!(root, expected);
        assert_eq!(shape(&root), shape(&expected));
    }
}

#[test]
fn long_keys_depend_on_the_order() {
    let long = "x".repeat(300);
    let mut a = Node::root();
    a.insert(&long[..], 1);
    a.insert("x", 2);
    let mut b = Node::root();
    b.insert("x", 2);
    b.insert(&long[..], 1);
    assert_eq!(entries(&a), entries(&b));
    assert_ne!(a, b);
}

#[test]
fn remove_changes_one_key() {
    for gone in KEYS {
        let mut root = tree(&KEYS);
        let i = KEYS.iter().position(|key| *key == gone).unwrap();
        assert_eq!(root.remove(gone), Some(i));
        assert_eq!(root.remove(gone), None);
        for (j, key) in KEYS.iter().enumerate() {
            assert_eq!(root.get(*key), if j == i { None } else { Some(&j) });
        }
    }
}

#[test]
fn remove_undoes_insert() {
    let root = tree(&KEYS);
    for key in ["", "ab", "appl", "applet", "boxer", "zebra"] {
        let mut other = root.clone();
        other.insert(key, 99);
        assert_eq!(other.remove(key), Some(99));
        assert_eq!(entries(&other), entries(&root));
        assert_eq!(other, root);
    }
}

#[test]
fn remove_of_absent_key_changes_nothing() {
    let mut root = tree(&KEYS);
    let before = root.clone();
    for key in ["", "ab", "appl", "applet", "boxer", "zebra"] {
        assert_eq!(root.remove(key), None);
        assert_eq!(root, before);
    }
}

#[test]
fn children_stay_in_order() {
    let mut root = tree(&["m", "c", "x", "a", "z"]);
    assert_eq!(root.children_first_bytes(), b"acmxz".to_vec());
    root.remove("m");
    assert_eq!(root.children_first_bytes(), b"acxz".to_vec());
    root.insert("b", 5);
    assert_eq!(root.children_first_bytes(), b"abcxz".to_vec());
}

#[test]
fn no_useless_nodes_stay() {
    let mut root = tree(&KEYS);
    for key in ["apply", "applesauce", "abs"] {
        root.remove(key);
    }
    assert_eq!(
        shape(&root),
        vec![
            (0, b"".to_vec()),
            (1, b"a".to_vec()),
            (2, b"bort".to_vec()),
            (2, b"pple".to_vec()),
            (1, b"box".to_vec()),
        ]
    );
}

#[test]
fn occupied_entry_leaves_tree_alone() {
    let mut root = tree(&KEYS);
    let before = root.clone();
    assert!(matches!(root.entry("apple"), Entry::Occupied(_)));
    assert_eq!(root, before);
}

#[test]
fn vacant_entry_left_empty_holds_nothing_new() {
    let mut root = tree(&KEYS);
    let before = entries(&root);
    assert!(matches!(root.entry("appl"), Entry::Vacant(_)));
    assert!(matches!(root.entry("app"), Entry::Vacant(_)));
    assert!(matches!(root.entry("zebra"), Entry::Vacant(_)));
    assert_eq!(entries(&root), before);
    assert!(root.get_node("app").is_some());
    assert_eq!(root.get("zebra"), None);
}

#[test]
fn entry_with_value_is_insert() {
    for key in ["", "ab", "appl", "applet", "apple", "zebra"] {
        let mut a = tree(&KEYS);
        let mut b = a.clone();
        *a.entry(key).or_insert(0) = 42;
        b.insert(key, 42);
        assert_eq!(a, b);
    }
}

#[test]
fn merge_keeps_keys() {
    let leaf = Node::new(b"cd", vec![], Some(1));
    let mut node = Node::new(b"ab", vec![leaf], None);
    assert_eq!(node.get("abcd"), Some(&1));
    node.try_merge_child();
    assert_eq!(node.label(), b"abcd");
    assert_eq!(node.get("abcd"), Some(&1));
    assert_eq!(node.get("ab"), None);
}

#[test]
fn split_parts_the_keys() {
    for prefix in ["a", "ab", "app", "appl", "apple", "applesauce", "b", "box"] {
        let mut root = tree(&KEYS);
        let all = entries(&root);
        assert!(root.can_split_by_prefix(prefix));
        let part = root.split_by_prefix(prefix).unwrap();
        assert!(part.label().starts_with(prefix.as_bytes()));
        let (inside, outside): (Vec<_>, Vec<_>) =
            all.into_iter().partition(|(key, _)| key.starts_with(prefix));
        assert_eq!(entries(&part), inside);
        assert_eq!(entries(&root), outside);
    }
}

#[test]
fn split_without_such_a_prefix_does_nothing() {
    for prefix in ["apx", "applesauces", "c", "boxy"] {
        let mut root = tree(&KEYS);
        let before = root.clone();
        assert!(root.can_split_by_prefix(prefix));
        assert_eq!(root.split_by_prefix(prefix), None);
        assert_eq!(root, before);
    }
}

#[test]
fn prefix_node_is_above_all_such_keys() {
    let root = tree(&KEYS);
    let (len, node) = root.get_prefix_node("ap").unwrap();
    assert_eq!((len, node.label()), (1, &b"ppl"[..]));
    let (len, node) = root.get_prefix_node("appl").unwrap();
    assert_eq!((len, node.label()), (3, &b"ppl"[..]));
    let (len, node) = root.get_prefix_node("").unwrap();
    assert_eq!((len, node.label()), (0, &b""[..]));
    assert!(root.get_prefix_node("ax").is_none());
}

#[test]
fn nodes_along_a_key() {
    let root = tree(&KEYS);
    let mut iter = root.common_prefixes("applesauces");
    let lens: Vec<_> = std::iter::from_fn(|| iter.next()).map(|(n, _)| n).collect();
    assert_eq!(lens, vec![0, 1, 4, 5, 10]);
    for n in 0..=11 {
        let part = &"applesauces"[..n];
        assert_eq!(root.get_node(part).is_some(), lens.contains(&n));
    }
    let mut iter = root.common_prefixes_owned(String::from("absx"));
    let lens: Vec<_> = std::iter::from_fn(|| iter.next()).map(|(n, _)| n).collect();
    assert_eq!(lens, vec![0, 1, 2, 3]);
    assert!(iter.next().is_none());
}

#[test]
fn traversal_meets_all_nodes_in_order_of_keys() {
    let root = tree(&KEYS);
    let mut iter = root.wildcard_iter("*");
    let keys: Vec<_> = std::iter::from_fn(|| iter.next()).map(|found| found.key).collect();
    let mut sorted = keys.clone();
    sorted.sort();
    assert_eq!(keys, sorted);
    for key in &keys {
        assert!(root.get_node(key).is_some());
    }
    assert_eq!(keys.len(), shape(&root).len());
}

#[test]
fn both_orders_meet_the_same_nodes() {
    let root = tree(&KEYS);
    let mut depth = shape(&root);
    let mut iter = root.iter_bfs();
    let mut breadth: Vec<_> = std::iter::from_fn(|| iter.next())
        .map(|(level, node)| (level, node.label().to_vec()))
        .collect();
    assert!(breadth.windows(2).all(|pair| pair[0].0 <= pair[1].0));
    assert_ne!(depth, breadth);
    depth.sort();
    breadth.sort();
    assert_eq!(depth, breadth);
}

#[test]
fn breadth_first_order_is_depth_first_order_by_level() {
    let root = tree(&KEYS);
    let mut depth = shape(&root);
    let mut iter = root.iter_bfs();
    let breadth: Vec<_> = std::iter::from_fn(|| iter.next())
        .map(|(level, node)| (level, node.label().to_vec()))
        .collect();
    depth.sort_by_key(|(level, _)| *level);
    assert_eq!(breadth, depth);
}

#[test]
fn depth_first_step_takes_children_next() {
    let root = tree(&["ab", "ac", "b"]);
    let mut iter = root.iter();
    assert_eq!(iter.next().unwrap().1.label(), b"");
    assert_eq!(iter.next().unwrap().1.label(), b"a");
    assert_eq!(iter.next().unwrap().1.label(), b"b");
    let mut iter = root.iter_bfs();
    assert_eq!(iter.next().unwrap().1.label(), b"");
    assert_eq!(iter.next().unwrap().1.label(), b"a");
    assert_eq!(iter.next().unwrap().0, 1);
}

#[test]
fn mutable_traversals_write_every_value() {
    let mut root = tree(&KEYS);
    let before = shape(&root);
    let mut iter = root.iter_mut();
    while let Some((_, node)) = iter.next() {
        if let Some(value) = node.into_value_mut() {
            *value += 100;
        }
    }
    let mut iter = root.iter_mut_bfs();
    while let Some((_, node)) = iter.next() {
        if let Some(value) = node.into_value_mut() {
            *value *= 2;
        }
    }
    assert_eq!(shape(&root), before);
    for (i, key) in KEYS.iter().enumerate() {
        assert_eq!(root.get(*key), Some(&((i + 100) * 2)));
    }
}

#[test]
fn what_a_step_writes_stays_in_its_place() {
    let mut root = tree(&KEYS);
    let mut iter = root.iter_mut();
    let mut place = 0;
    while let Some((_, node)) = iter.next() {
        if let Some(value) = node.into_value_mut() {
            *value = place;
        }
        place += 1;
    }
    let mut iter = root.iter();
    let values: Vec<_> =
        std::iter::from_fn(|| iter.next()).map(|(_, node)| node.value().copied()).collect();
    assert_eq!(values.len(), place);
    assert_eq!(
        values,
        vec![
            None,
            Some(1),
            None,
            Some(3),
            Some(4),
            None,
            Some(6),
            Some(7),
            Some(8),
            Some(9),
        ]
    );
    let mut iter = root.iter_mut_bfs();
    let mut place = 0;
    while let Some((_, node)) = iter.next() {
        if let Some(value) = node.into_value_mut() {
            *value = place;
        }
        place += 1;
    }
    let mut iter = root.iter_bfs();
    let mut place = 0;
    while let Some((_, node)) = iter.next() {
        assert!(node.value().is_none() || node.value() == Some(&place));
        place += 1;
    }
}

#[test]
fn owning_traversals_hand_out_bare_nodes() {
    let root = tree(&KEYS);
    let expected = shape(&root);
    let mut iter = root.clone().into_iter();
    let mut met = Vec::new();
    while let Some((level, node)) = iter.next() {
        assert_eq!(node.children_len(), 0);
        met.push((level, node.label().to_vec()));
    }
    assert_eq!(met, expected);
    let mut iter = root.into_iter_bfs();
    let mut count = 0;
    while let Some((_, node)) = iter.next() {
        assert!(node.children().is_empty());
        count += 1;
    }
    assert_eq!(count, expected.len());
}

#[test]
fn equality_is_that_of_listings() {
    fn listing(root: &Node<usize>) -> Vec<(usize, Vec<u8>, Option<usize>)> {
        let mut iter = root.iter();
        std::iter::from_fn(|| iter.next())
            .map(|(level, node)| (level, node.label().to_vec(), node.value().copied()))
            .collect()
    }
    let leaf = |label: &[u8]| Node::new(label, vec![], Some(1));
    let trees = [
        tree(&["ab", "ac"]),
        tree(&["ab", "ac"]),
        tree(&["ac", "ab"]),
        tree(&["ab", "ac", "a"]),
        Node::new(b"", vec![leaf(b"x"), leaf(b"y")], None),
        Node::new(b"", vec![Node::new(b"x", vec![leaf(b"y")], Some(1))], None),
    ];
    for a in &trees {
        for b in &trees {
            assert_eq!(a == b, listing(a) == listing(b));
        }
    }
    assert_eq!(trees[0], trees[1]);
    assert_ne!(trees[0], trees[2]);
    assert_ne!(trees[4], trees[5]);
}

#[test]
fn equality_and_copies() {
    let root = tree(&KEYS);
    let mut copy = root.clone();
    assert_eq!(copy, root);
    copy.insert("a", 50);
    assert_ne!(copy, root);
    copy.insert("a", 0);
    assert_eq!(copy, root);
    copy.insert("b", 51);
    assert_ne!(copy, root);
    let a = Node::new(b"x", vec![], Some(1));
    assert_ne!(a, Node::new(b"y", vec![], Some(1)));
    assert_ne!(a, Node::new(b"x", vec![], None));
    assert_ne!(a, Node::new(b"x", vec![Node::new(b"z", vec![], Some(1))], Some(1)));
}

#[test]
fn room_runs_out_with_too_many_children() {
    let mut root = Node::root();
    for i in 0..255_u8 {
        assert!(root.has_room(&[i, 0][..]));
        root.insert(&[i, 0][..], ());
    }
    // another child would be one too many, but what is there can still grow
    assert!(!root.has_room(&[255][..]));
    assert!(root.has_room(&[7, 1][..]));
    assert!(root.has_room(&[7][..]));
    assert!(root.has_room(&[][..]));
}

#[test]
fn children_without_order_are_still_found() {
    let mut root = Node::new(
        b"",
        vec![
            Node::new(b"c", vec![], Some(3)),
            Node::new(b"ab", vec![], Some(1)),
            Node::new(b"b", vec![], Some(2)),
        ],
        None,
    );
    assert_eq!(root.get("ab"), Some(&1));
    assert_eq!(root.remove("c"), Some(3));
    assert_eq!(root.get("b"), Some(&2));
    assert_eq!(root.split_by_prefix("a").unwrap().label(), b"ab");
    assert_eq!(root.get("b"), Some(&2));
    assert_eq!(root.children_first_bytes(), b"b".to_vec());
}
