use fast_radix_trie::Node;

/// Creates a standard test tree with the following structure:
/// "" (root, val: 0)
///  ├─ "a" (val: 1)
///  │   └─ "pp"
///  │       ├─ "le" (val: 2)
///  │       └─ "ly" (val: 3)
///  └─ "box" (val: 4)
fn create_test_tree_with_root_val() -> Node<u32> {
    let mut root = Node::root();
    root.insert("", 0);
    root.insert("a", 1);
    root.insert("apple", 2);
    root.insert("apply", 3);
    root.insert("box", 4);
    root
}

/// Creates a standard test tree with the following structure:
/// "" (root, val: None)
///  ├─ "a" (val: 1)
///  │   └─ "pp"
///  │       ├─ "le" (val: 2)
///  │       └─ "ly" (val: 3)
///  └─ "box" (val: 4)
fn create_test_tree() -> Node<u32> {
    let mut root = Node::root();
    root.insert("a", 1);
    root.insert("apple", 2);
    root.insert("apply", 3);
    root.insert("box", 4);
    root
}

/// &root = "" (-)
///      ├─"a" (1)
///            ├─"b" (-)
///                  ├─"ort" (5)
///                  └─"s" (6)
///            └─"ppl" (-)
///                  ├─"e" (2)
///                        └─"sauce" (3)
///                  └─"y" (4)
///      └─"box" (7)
fn create_bigger_test_tree() -> Node<u32> {
    let mut root = Node::root();
    root.insert("a", 1);
    root.insert("apple", 2);
    root.insert("applesauce", 3);
    root.insert("apply", 4);
    root.insert("abort", 5);
    root.insert("abs", 6);
    root.insert("box", 7);
    root
}

#[test]
fn test_get_longest_common_prefix() {
    let mut root = create_test_tree_with_root_val();

    // Key is shorter than any entry
    assert_eq!(
        root.get_longest_common_prefix("")
            .and_then(|(len, n)| Some((len, n.value()?))),
        Some((0, &0))
    );
    // Root has value 0
    assert_eq!(
        root.get_longest_common_prefix("b")
            .and_then(|(len, n)| Some((len, n.value()?))),
        Some((0, &0))
    );

    // Key is a prefix of an entry
    assert_eq!(
        root.get_longest_common_prefix("ap")
            .and_then(|(len, n)| Some((len, n.value()?))),
        Some((1, &1))
    ); // "a" is the LCP
    assert_eq!(
        root.get_longest_common_prefix("app")
            .and_then(|(len, n)| Some((len, n.value()?))),
        Some((1, &1))
    );
    assert_eq!(
        root.get_longest_common_prefix("appl")
            .and_then(|(len, n)| Some((len, n.value()?))),
        Some((1, &1))
    );

    // Key matches an entry exactly
    assert_eq!(
        root.get_longest_common_prefix("a")
            .and_then(|(len, n)| Some((len, n.value()?))),
        Some((1, &1))
    );
    assert_eq!(
        root.get_longest_common_prefix("apple")
            .and_then(|(len, n)| Some((len, n.value()?))),
        Some((5, &2))
    );
    assert_eq!(
        root.get_longest_common_prefix("box")
            .and_then(|(len, n)| Some((len, n.value()?))),
        Some((3, &4))
    );

    // Key extends an entry
    assert_eq!(
        root.get_longest_common_prefix("apples")
            .and_then(|(len, n)| Some((len, n.value()?))),
        Some((5, &2))
    );
    assert_eq!(
        root.get_longest_common_prefix("boxer")
            .and_then(|(len, n)| Some((len, n.value()?))),
        Some((3, &4))
    );

    // No match beyond root
    assert_eq!(
        root.get_longest_common_prefix_mut("xyz")
            .and_then(|(len, n)| Some((len, n.value()?))),
        Some((0, &0))
    );

    // Test with a tree where root has no value
    let mut root_no_val = Node::root();
    root_no_val.insert("test", 10);
    assert!(root_no_val.get_longest_common_prefix("t").is_none());
    assert_eq!(
        root_no_val
            .get_longest_common_prefix("testing")
            .and_then(|(len, n)| Some((len, n.value()?))),
        Some((4, &10))
    );
}

#[test]
fn test_get_longest_common_prefix_mut() {
    let mut root = create_test_tree();

    // Find LCP and mutate it
    let (len, val) = root.get_longest_common_prefix_mut("apples").unwrap();
    assert_eq!(len, 5);
    assert_eq!(*val.value_mut().unwrap(), 2);
    *val.value_mut().unwrap() = 22;

    // Verify the change
    assert_eq!(root.get("apple"), Some(&22));

    // Find another LCP and mutate (matches "a")
    let (len, val) = root.get_longest_common_prefix_mut("app").unwrap();
    assert_eq!(len, 1);
    assert_eq!(*val.value().unwrap(), 1);
    // mutate "a"
    *val.value_mut().unwrap() = 11;

    // Verify the change
    assert_eq!(root.get("a"), Some(&11));
    assert_eq!(root.get("apple"), Some(&22)); // Previous change should persist

    // No match
    assert!(root.get_longest_common_prefix_mut("xyz").is_none());

    // Match root
    assert!(root.get_longest_common_prefix_mut("b").is_none());
}

#[test]
fn test_split_by_prefix() {
    let mut root = create_bigger_test_tree();

    let mut map = root.clone();
    let other = map.split_by_prefix("ap");
    assert_eq!(other.unwrap().label(), b"appl");

    let other = root.split_by_prefix("ap").unwrap();
    assert_eq!(other.value(), None);
    assert_eq!(other.label(), b"appl");
    assert_eq!(other.children_len(), 2);

    let other = root.split_by_prefix("ab").unwrap();
    assert_eq!(other.value(), None);
    assert_eq!(other.label(), b"ab");
    assert_eq!(other.children_len(), 2);

    let mut root = create_bigger_test_tree();
    let other = root.split_by_prefix("b").unwrap();
    assert_eq!(other.value(), Some(&7)); // box value
    assert_eq!(other.label(), b"box");
    assert_eq!(other.children_len(), 0);

    // matches a leaf split over many prefix nodes
    let mut root = create_bigger_test_tree();
    let other = root.split_by_prefix("abort").unwrap();
    assert_eq!(other.value(), Some(&5));
    assert_eq!(other.label(), b"abort");
    assert_eq!(other.children_len(), 0);

    let mut root = create_bigger_test_tree();
    let other = root.split_by_prefix("x");
    assert_eq!(other, None);

    let mut root = create_bigger_test_tree();
    let other = root.split_by_prefix("xyx");
    assert_eq!(other, None);
}

#[test]
fn test_common_prefixes_iter() {
    let root = create_bigger_test_tree();

    let mut iter = root.common_prefixes("applesauces");
    let ret = std::iter::from_fn(|| iter.next())
        .map(|(_, n)| n.value())
        .collect::<Vec<_>>();
    assert_eq!(ret, vec![None, Some(&1), None, Some(&2), Some(&3)])
}

#[test]
fn test_issue42_iter_prefix() {
    let mut root = Node::root();
    root.insert("a0/b0", 1);
    root.insert("a1/b1", 2);

    assert_eq!(root.get_prefix_node("b"), None);
    assert_eq!(root.get_prefix_node("b0"), None);
    assert_eq!(root.get_prefix_node("a0").unwrap().1.value().unwrap(), &1);
    assert_eq!(root.get_prefix_node("a0").unwrap().0, 1);
    assert_eq!(root.get_prefix_node("a0/b1"), None);
    assert_eq!(root.get_prefix_node("a1/").unwrap().1.value().unwrap(), &2);
    assert_eq!(root.get_prefix_node("a1/").unwrap().0, 2);
    assert_eq!(root.get_prefix_node("a1/b").unwrap().1.value().unwrap(), &2);
    assert_eq!(root.get_prefix_node("a1/b").unwrap().0, 3);
    assert_eq!(root.get_prefix_node("a1/b2"), None);

    let mut root = Node::root();
    root.insert("foo", 1);
    root.insert("bar", 2);
    root.insert("baz", 3);
    assert_eq!(root.get_prefix_node("bax"), None);
}

#[test]
fn test_issue42_split_by() {
    let create = || {
        let mut root = Node::root();
        root.insert("a0/b0", 1);
        root.insert("a1/b1", 2);
        root
    };

    let mut root = create();
    assert_eq!(root.split_by_prefix("b"), None);
    let mut root = create();
    assert_eq!(root.split_by_prefix("b0"), None);

    let mut root = create();
    assert_eq!(root.split_by_prefix("a0").unwrap().value().unwrap(), &1);

    let mut root = create();
    assert_eq!(root.split_by_prefix("a0/b1"), None);

    let mut root = create();
    assert_eq!(root.split_by_prefix("a1/").unwrap().value().unwrap(), &2);
    let mut root = create();
    assert_eq!(root.split_by_prefix("a1/b").unwrap().value().unwrap(), &2);
    let mut root = create();
    assert_eq!(root.split_by_prefix("a1/b2"), None);

    let mut root = Node::root();
    root.insert("foo", 1);
    root.insert("bar", 2);
    root.insert("baz", 3);
    assert_eq!(root.split_by_prefix("bax"), None);
    assert_eq!(root.split_by_prefix("baxx"), None);
    assert_eq!(root.split_by_prefix("x"), None);
    assert_eq!(root.split_by_prefix("f").unwrap().value().unwrap(), &1);
}

#[test]
fn get_longest_common_prefix() {
    let mut set = Node::root();
    for key in ["123", "123456", "1234_67", "123abc", "123def"] {
        set.insert(key, ());
    }

    let lcp = |key: &'static str| {
        set.get_longest_common_prefix(key)
            .map(|(len, _)| &key.as_bytes()[..len])
    };
    assert_eq!(lcp(""), None);
    assert_eq!(lcp("12"), None);
    assert_eq!(lcp("123"), Some("123".as_bytes()));
    assert_eq!(lcp("1234"), Some("123".as_bytes()));
    assert_eq!(lcp("123456"), Some("123456".as_bytes()));
    assert_eq!(lcp("1234_6"), Some("123".as_bytes()));
    assert_eq!(lcp("123456789"), Some("123456".as_bytes()));
}

/// The part of `key` that has a value, and the value.
fn longest<'a>(map: &'a mut Node<usize>, key: &'a str) -> Option<(&'a str, &'a mut usize)> {
    let (len, node) = map.get_longest_common_prefix_mut(key)?;
    Some((&key[..len], node.value_mut()?))
}

#[test]
fn get_longest_common_prefix_mut() {
    let mut map = Node::root();
    for (key, value) in [
        ("123", 1),
        ("123456", 2),
        ("1234_67", 3),
        ("123abc", 4),
        ("123def", 5),
    ] {
        map.insert(&String::from(key), value);
    }

    assert_eq!(longest(&mut map, ""), None);
    assert_eq!(longest(&mut map, "12"), None);
    assert_eq!(longest(&mut map, "123"), Some(("123", &mut 1)));
    *longest(&mut map, "123").unwrap().1 = 10;
    assert_eq!(longest(&mut map, "1234"), Some(("123", &mut 10)));
    assert_eq!(longest(&mut map, "123456"), Some(("123456", &mut 2)));
    *longest(&mut map, "1234567").unwrap().1 = 20;
    assert_eq!(longest(&mut map, "1234_6"), Some(("123", &mut 10)));
    assert_eq!(longest(&mut map, "123456789"), Some(("123456", &mut 20)));
}
