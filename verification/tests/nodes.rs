use fast_radix_trie::Node;

/// &root = "" (-)
///      ├─"a" (1)
///            ├─"b" (-)
///                  ├─"ort" (5)
///                  └─"s" (6)
///            └─"ppl" (-)
///                  ├─"e" (2)
///                        └─"sauce" (3)
///                  └─"y" (4)
///      └─"box" (7)
fn create_bigger_test_tree() -> Node<u32> {
    let mut root = Node::root();
    root.insert("a", 1);
    root.insert("apple", 2);
    root.insert("applesauce", 3);
    root.insert("apply", 4);
    root.insert("abort", 5);
    root.insert("abs", 6);
    root.insert("box", 7);
    root
}

#[test]
fn root_works() {
    let node = Node::<()>::root();
    assert!(node.label().is_empty());
    assert!(node.value().is_none());
    assert!(node.children().is_empty());
}

#[test]
fn new_works() {
    let node0 = Node::new("foo".as_ref(), vec![], Some(3));
    let node1 = Node::new("bar".as_ref(), vec![node0], None);
    assert_eq!(node1.label(), b"bar");
    assert_eq!(node1.value(), None);
    assert_eq!(
        node1
            .children()
            .iter()
            .map(|n| n.label())
            .collect::<Vec<_>>(),
        vec![b"foo"]
    );

    match node1.children() {
        [node0] => {
            assert_eq!(node0.label(), b"foo");
            assert_eq!(node0.value(), Some(&3));
            assert_eq!(
                node0
                    .children()
                    .iter()
                    .map(|n| n.label())
                    .collect::<Vec<&[u8]>>(),
                Vec::<&[u8]>::new()
            );
        }
        _ => {
            panic!("test failed")
        }
    }
}

#[test]
fn test_children_first_bytes() {
    // no children
    let root = Node::<()>::new(b"", vec![], None);
    assert_eq!(root.children_first_bytes().len(), 0);

    // with children
    let child1 = Node::<()>::new(b"apple", vec![], None);
    let child2 = Node::<()>::new(b"banana", vec![], None);
    let child4 = Node::<()>::new(b"cherry", vec![], None);
    let child3 = Node::<()>::new(b"mango", vec![], None);
    let parent = Node::new(b"", vec![child1, child2, child3, child4], None);

    let mut first_bytes = parent.children_first_bytes().into_iter();
    assert_eq!(first_bytes.next(), Some(b'a'));
    assert_eq!(first_bytes.next(), Some(b'b'));
    assert_eq!(first_bytes.next(), Some(b'm'));
    assert_eq!(first_bytes.next(), Some(b'c'));
    assert_eq!(first_bytes.next(), None);
}

#[test]
fn test_add_child() {
    let mut root = Node::new(b"", vec![], None);
    root.add_child(Node::new(b"b", vec![], Some(2)), 0);
    // should shift children right
    root.add_child(Node::new(b"a", vec![], Some(1)), 0);
    assert_eq!(
        root.children_first_bytes(),
        vec![b'a', b'b']
    );

    let child1 = Node::new(b"a", vec![], None);
    let mut parent = Node::new(b"parent", vec![child1], Some(100));

    // Add at the end
    let child2 = Node::new(b"c", vec![], None);
    parent.add_child(child2, 1);
    assert_eq!(parent.children_len(), 2);
    assert_eq!(parent.children()[0].label(), b"a");
    assert_eq!(parent.children()[1].label(), b"c");
    assert_eq!(parent.value(), Some(&100));

    // Add in the middle
    let child3 = Node::new(b"b", vec![], None);
    parent.add_child(child3, 1);
    assert_eq!(parent.children_len(), 3);
    assert_eq!(parent.children()[0].label(), b"a");
    assert_eq!(parent.children()[1].label(), b"b");
    assert_eq!(parent.children()[2].label(), b"c");

    // Add at the beginning
    let child4 = Node::new(b"_", vec![], None);
    parent.add_child(child4, 0);
    assert_eq!(parent.children_len(), 4);
    assert_eq!(parent.children()[0].label(), b"_");
    assert_eq!(parent.children()[1].label(), b"a");
    assert_eq!(parent.children()[2].label(), b"b");
    assert_eq!(parent.children()[3].label(), b"c");
    assert_eq!(parent.label(), b"parent");
    assert_eq!(parent.value(), Some(&100));
}

#[test]
fn test_remove_child() {
    let child1 = Node::new(b"a", vec![], None);
    let child2 = Node::new(b"b", vec![], None);
    let child3 = Node::new(b"c", vec![], None);
    let child4 = Node::new(b"d", vec![], None);
    let mut parent = Node::new(b"", vec![child1, child2, child3, child4], Some(100));

    // Remove from the middle
    let removed = parent.remove_child(1);
    assert_eq!(removed.label(), b"b");
    assert_eq!(parent.children_len(), 3);
    assert_eq!(parent.children()[0].label(), b"a");
    assert_eq!(parent.children()[1].label(), b"c");
    assert_eq!(parent.children()[2].label(), b"d");
    assert_eq!(parent.value(), Some(&100));

    // Remove from the end
    let removed = parent.remove_child(2);
    assert_eq!(removed.label(), b"d");
    assert_eq!(parent.children_len(), 2);
    assert_eq!(parent.children()[0].label(), b"a");
    assert_eq!(parent.children()[1].label(), b"c");

    // Remove from the beginning
    let removed = parent.remove_child(0);
    assert_eq!(removed.label(), b"a");
    assert_eq!(parent.children_len(), 1);
    assert_eq!(parent.children()[0].label(), b"c");

    // Remove the last child
    let removed = parent.remove_child(0);
    assert_eq!(removed.label(), b"c");
    assert_eq!(parent.children_len(), 0);
    assert!(parent.children().is_empty());
    assert_eq!(parent.label(), b"");
    assert_eq!(parent.value(), Some(&100));
}

#[test]
fn test_prefix_label() {
    let child = Node::new(b"ld", vec![], Some(2));
    let mut node = Node::new(b"wor", vec![child], Some(1));

    node.prefix_label(b"hello ");

    assert_eq!(node.label(), b"hello wor");
    assert_eq!(node.value(), Some(&1));
    assert_eq!(node.children_len(), 1);
    assert_eq!(node.children()[0].label(), b"ld");
    assert_eq!(node.children()[0].value(), Some(&2));
}

#[test]
fn test_try_merge_child() {
    // Case 1: Node has no value and one child -> should merge.
    let child = Node::new(b"c", vec![], Some(3));
    let mut node = Node::new(b"b", vec![child], None); // No value
    node.try_merge_child();
    // should merge
    assert_eq!(node.label(), b"bc");
    assert_eq!(node.value(), Some(&3));
    assert_eq!(node.children_len(), 0);

    // Case 2: Node has a value -> should NOT merge.
    let child = Node::new(b"c", vec![], Some(3));
    let mut node = Node::new(b"b", vec![child], Some(2)); // Has a value
    let cloned_node = node.clone();
    node.try_merge_child();
    // should not merge
    assert_eq!(node.label(), b"b");
    assert_eq!(
        node, cloned_node,
        "Should not merge when parent has a value"
    );

    // Case 3: Node has multiple children -> should NOT merge.
    let child1 = Node::new(b"c", vec![], Some(3));
    let child2 = Node::new(b"d", vec![], Some(4));
    let mut node = Node::new(b"b", vec![child1, child2], None); // No value, but 2 children
    let cloned_node = node.clone();
    node.try_merge_child();
    assert_eq!(node.label(), b"b");
    assert_eq!(node.children_len(), 2);
    assert_eq!(
        node, cloned_node,
        "Should not merge when parent has multiple children"
    );

    // Case 4: Node has no children -> should do nothing.
    let mut node: Node<u32> = Node::new(b"b", vec![], None);
    let cloned_node = node.clone();
    node.try_merge_child();
    assert_eq!(
        node, cloned_node,
        "Should not panic or change when node has no children"
    );
}

#[test]
fn test_take_children() {
    let mut root = create_bigger_test_tree();
    let children = root.take_children().unwrap();
    assert_eq!(children.len(), 2);
}

#[test]
fn test_root() {
    // test creation of new root where nothing matches
    let mut root = Node::new(b"notfoobar", vec![], Some(1));
    root.insert(b"foobar", 1);
    // makes child "baz" under "foobar"
    root.insert(b"foobarbaz", 3);
    assert_eq!(root.label_len(), 0);
    assert_eq!(root.children()[0].label(), b"foobar");
    assert_eq!(root.children()[1].label(), b"notfoobar");
}

#[test]
fn well_formed_trees_are_told_from_others() {
    assert!(Node::<u32>::root().is_valid());
    let mut root = Node::root();
    for key in ["apple", "apply", "", "box"] {
        root.insert(key, 1);
        assert!(root.is_valid());
    }
    let leaf = |label: &[u8]| Node::new(label, vec![], Some(1));
    assert!(leaf(&[b'x'; 255]).is_valid());
    assert!(Node::new(b"", vec![leaf(b"y"), leaf(b"x")], None).is_valid());
    // only the top may go without a label
    assert!(!Node::new(b"", vec![leaf(b"")], None).is_valid());
    assert!(!Node::new(b"a", vec![Node::new(b"b", vec![leaf(b"")], None)], None).is_valid());
}
