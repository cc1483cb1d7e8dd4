use fast_radix_trie::Node;

/// Creates a standard test tree with the following structure:
/// "" (root, val: None)
///  ├─ "a" (val: 1)
///  │   └─ "pp"
///  │       ├─ "le" (val: 2)
///  │       └─ "ly" (val: 3)
///  └─ "box" (val: 4)
fn create_test_tree() -> Node<u32> {
    let mut root = Node::root();
    root.insert("a", 1);
    root.insert("apple", 2);
    root.insert("apply", 3);
    root.insert("box", 4);
    root
}

#[test]
fn test_get_and_get_mut() {
    let mut root: Node<u32> = Node::new(b"test", vec![], Some(1));
    // insert test
    // split at 2 so we have te -> am
    //                          -> st
    root.split_at(2, Some(Node::new(b"am", vec![], Some(2))));
    assert_eq!(root.get("team"), Some(&2));
    assert_eq!(root.get("test"), Some(&1));

    // recreate root
    let mut root: Node<u32> = Node::new(b"", vec![], Some(2));
    root.insert("test", 1);
    assert_eq!(root.get("test"), Some(&1));

    root.insert("team", 2);
    assert_eq!(root.get("team"), Some(&2));

    root.insert("toast", 3);

    // Test get
    assert_eq!(root.get("test"), Some(&1));
    assert_eq!(root.get("team"), Some(&2));
    assert_eq!(root.get("toast"), Some(&3));
    assert_eq!(root.get("te"), None); // prefix, no value
    assert_eq!(root.get("testing"), None); // non-matching
    assert_eq!(root.get(""), root.value()); // root value

    // Test get_mut
    let val = root.get_mut("test");
    assert_eq!(*val.as_deref().unwrap(), 1);
    *val.unwrap() = 10;
    assert_eq!(root.get("test"), Some(&10));

    // Test get_mut on non-existent key
    assert_eq!(root.get_mut("nonexistent"), None);
}

#[test]
fn test_insert_with_or_modify() {
    let mut root = Node::root();
    root.insert("test", 10);

    // modify
    let mut modify_called = false;
    root.entry("test")
        .and_modify(|v| {
            *v += 5;
            modify_called = true;
        })
        .or_insert_with(|| panic!("insert should not be called"));

    assert!(modify_called);
    assert_eq!(root.get("test"), Some(&15));

    // insert new
    let mut insert_called = false;
    root.entry("new_key")
        .and_modify(|_| panic!("modified"))
        .or_insert_with(|| {
            insert_called = true;
            100
        });
    assert!(insert_called);
    assert_eq!(root.get("new_key"), Some(&100));

    root.insert("apple", 1);
    // create intermediate node "appl"
    let mut insert_called_on_prefix = false;
    root.entry("appl")
        .and_modify(|_| panic!("modify called"))
        .or_insert_with(|| {
            insert_called_on_prefix = true;
            99
        });
    assert!(insert_called_on_prefix);
    assert_eq!(root.get("appl"), Some(&99));
}

#[test]
fn test_insert_with_or_modify_vec() {
    let mut root: Node<Vec<u32>> = Node::root();

    // insert() a new key
    root.entry("counts")
        .and_modify(|_| panic!("modified"))
        .or_insert_with(
            || vec![0], // Create a new vector with one element.
        );
    assert_eq!(root.get("counts"), Some(&vec![0]));

    // modify() the existing key
    root.entry("counts")
        .and_modify(|v| v.push(1))
        .or_insert_with(|| panic!("insert should not be called on modify"));
    assert_eq!(root.get("counts"), Some(&vec![0, 1]));

    // modify()
    root.entry("counts")
        .and_modify(|v| {
            v.push(2);
        })
        .or_insert_with(|| panic!("insert should not be called on modify"));
    // created with 0 then pushed 1, 2
    assert_eq!(root.get("counts"), Some(&vec![0, 1, 2]));
}

#[test]
fn test_insert() {
    let mut root = Node::root();

    // Insert test key
    assert_eq!(root.insert("test", 1), None);
    assert_eq!(root.get("test"), Some(&1));
    assert_eq!(root.label(), b"");
    assert_eq!(root.children_len(), 1);
    assert_eq!(root.children()[0].label(), b"test");

    // Insert key with common prefix -> split
    assert_eq!(root.insert("team", 2), None);
    assert_eq!(root.get("test"), Some(&1));
    assert_eq!(root.get("team"), Some(&2));
    assert_eq!(root.children_len(), 1);
    assert_eq!(root.children()[0].label(), b"te"); // parent splits
    let te_node = &root.children()[0];
    assert_eq!(te_node.children_len(), 2);
    assert_eq!(te_node.children()[0].label(), b"am"); // "team" -> "am"
    assert_eq!(te_node.children()[1].label(), b"st"); // "test" -> "st"

    // 3. Insert key that is a prefix of an existing key -> add value
    assert_eq!(root.insert("te", 3), None);
    assert_eq!(root.get("te"), Some(&3));
    let te_node = &root.children()[0];
    assert_eq!(te_node.value(), Some(&3));

    // 4. Insert key that extends an existing key -> new child
    assert_eq!(root.insert("testing", 4), None);
    assert_eq!(root.get("testing"), Some(&4));
    let te_node = &root.children()[0];
    let st_node = &te_node.children()[1];
    assert_eq!(st_node.children_len(), 1);
    assert_eq!(st_node.children()[0].label(), b"ing");

    // 5. Replace existing key
    assert_eq!(root.insert("test", 10), Some(1));
    assert_eq!(root.get("test"), Some(&10));

    // 6. Insert key with no common prefix to existing children
    assert_eq!(root.insert("apple", 5), None);
    assert_eq!(root.get("apple"), Some(&5));
    assert_eq!(root.children_len(), 2); // root now has 'apple' and 'te'
    assert_eq!(root.children()[0].label(), b"apple");
    assert_eq!(root.children()[1].label(), b"te");

    let mut root = Node::root();
    // Insert test key
    assert_eq!(root.insert("b", 1), None);
    assert_eq!(root.insert("a", 1), None);
    assert_eq!(root.insert("z", 1), None);
    assert_eq!(root.children()[0].label(), b"a");
    assert_eq!(root.children()[1].label(), b"b");
    assert_eq!(root.children()[2].label(), b"z");

    let mut root = Node::root();
    // Insert test key
    assert_eq!(root.insert("b", 1), None);
    assert_eq!(root.insert("aa", 1), None);
    assert_eq!(root.insert("z", 1), None);
    assert_eq!(root.children()[0].label(), b"aa");
    assert_eq!(root.children()[1].label(), b"b");
    assert_eq!(root.children()[2].label(), b"z");

    let mut root = Node::root();
    // Insert test key
    assert_eq!(root.insert("z", 1), None);
    assert_eq!(root.insert("b", 1), None);
    assert_eq!(root.insert("a", 1), None);
    assert_eq!(root.insert("a", 2), Some(1));
    assert_eq!(root.children()[0].label(), b"a");
    assert_eq!(root.children()[0].value(), Some(&2));
    assert_eq!(root.children()[1].label(), b"b");
    assert_eq!(root.children()[2].label(), b"z");

    let mut root = Node::root();
    // Insert test key
    assert_eq!(root.insert("z", 1), None);
    assert_eq!(root.insert("b", 1), None);
    assert_eq!(root.insert("a", 1), None);
    assert_eq!(root.children()[0].label(), b"a");
    assert_eq!(root.children()[1].label(), b"b");
    assert_eq!(root.children()[2].label(), b"z");
}

#[test]
fn test_children_push_full() {
    let mut node = Node::root();

    for i in 0..255_u8 {
        node.insert(&i.to_be_bytes()[..], i);
    }

    assert_eq!(node.children().len(), 255);
    for i in 0..255u8 {
        assert_eq!(
            node.children()[i as usize].label(),
            i.to_be_bytes().as_slice()
        );
    }
}

#[test]
fn test_insert_static_size() {
    let mut node = Node::root();

    let label = [b'0'; 35];
    node.insert(&label, 1);

    assert_eq!(node.get(&label), Some(&1));
}

#[test]
fn test_insert_long_label() {
    let mut node = Node::root();

    // insert 000...00000
    let label = [b'0'; 260];
    node.insert(&label[..], 1);

    assert_eq!(node.get(&label[..]), Some(&1));
    node.insert("1", 2);
    assert_eq!(node.get("1"), Some(&2));
    node.insert("2", 3);
    assert_eq!(node.get("2"), Some(&3));

    // insert 000...11111
    let mut label = [b'0'; 255].to_vec();
    label.extend(b"11111");
    node.insert(&label[..], 4);
    assert_eq!(node.get(label.as_slice()), Some(&4));

    let label = [b'1'; 240];
    node.insert(&label[..], 5);
    assert_eq!(node.get(&label), Some(&5));
    assert_eq!(node.get("1"), Some(&2));

    let label = [b'1'; 260];
    node.insert(&label[..], 6);
    assert_eq!(node.get(&[b'1'; 240]), Some(&5));
    assert_eq!(node.get(&label), Some(&6));
    assert_eq!(node.get("1"), Some(&2));

    // 240 - 1 = 239
    assert_eq!(node.get_node(&[b'1'; 240]).unwrap().label_len(), 239);
    // 260 - 240 = 20
    assert_eq!(node.get_node(&label).unwrap().label_len(), 20);

    assert_eq!(node.remove(&label[..]), Some(6));
    assert_eq!(node.remove(&[b'1'; 240]), Some(5));
}

#[test]
fn test_insert_partial_prefix_match_and_long_suffix_label() {
    let mut node = Node::root();

    // insert 000...0 with length 10.
    let label = [b'0'; 10];

    node.insert(&label[..], 1);
    assert_eq!(node.get(&label[..]), Some(&1));

    // insert 000...1111 sharing first 5 bytes and spanning > 255 bytes of suffix.
    let mut label = [b'0'; 5].to_vec();
    label.extend(b"1".repeat(300));

    node.insert(&label[..], 2);
    assert_eq!(node.get(label.as_slice()), Some(&2));
}

#[test]
fn test_insert_total_prefix_match_and_long_suffix_label() {
    let mut node = Node::root();

    // insert 000...0 with length 10.
    let label = [b'0'; 10];

    node.insert(&label[..], 1);
    assert_eq!(node.get(&label[..]), Some(&1));

    // insert 000...1111 with 1s suffix extending after the first 10 bytes.
    let mut label = [b'0'; 10].to_vec();
    label.extend(b"1".repeat(300));

    node.insert(&label[..], 2);
    assert_eq!(node.get(label.as_slice()), Some(&2));
}

#[test]
fn test_insert_double_long_label() {
    let mut node = Node::root();

    let label = [b'3'; 560];
    node.insert(&label[..], 3);

    assert_eq!(node.get(&label[..]), Some(&3));
    node.insert("1", 1);
    assert_eq!(node.get("1"), Some(&1));
    node.insert("2", 2);
    assert_eq!(node.get("2"), Some(&2));
}

// Two long labels that share no common prefix — each becomes an independent chain.
#[test]
fn test_two_disjoint_long_labels() {
    let mut node = Node::root();
    let a = [b'a'; 300];
    let b = [b'b'; 300];
    node.insert(&a[..], 1);
    node.insert(&b[..], 2);
    assert_eq!(node.get(&a[..]), Some(&1));
    assert_eq!(node.get(&b[..]), Some(&2));
    // removing one leaves the other intact
    assert_eq!(node.remove(&a[..]), Some(1));
    assert_eq!(node.get(&a[..]), None);
    assert_eq!(node.get(&b[..]), Some(&2));
}

// Two long labels that share a long common prefix (>255 bytes) before diverging.
#[test]
fn test_long_shared_prefix_long_suffixes() {
    let mut node = Node::root();
    // shared: 'x' * 260, then diverge
    let mut a = [b'x'; 260].to_vec();
    a.extend(b"aaa");
    let mut b = [b'x'; 260].to_vec();
    b.extend(b"bbb");

    node.insert(&a[..], 1);
    node.insert(&b[..], 2);
    assert_eq!(node.get(&a[..]), Some(&1));
    assert_eq!(node.get(&b[..]), Some(&2));
    assert_eq!(node.remove(&a[..]), Some(1));
    assert_eq!(node.get(&a[..]), None);
    assert_eq!(node.get(&b[..]), Some(&2));
}

// Replace the value of an existing long-label key.
#[test]
fn test_overwrite_long_label() {
    let mut node = Node::root();
    let label = [b'z'; 510];
    node.insert(&label[..], 1);
    assert_eq!(node.insert(&label[..], 2), Some(1));
    assert_eq!(node.get(&label[..]), Some(&2));
}

// Insert a short key that is a prefix of a long key, and vice versa.
#[test]
fn test_short_prefix_of_long_label() {
    let mut node = Node::root();
    let short = [b'p'; 10];
    let mut long = [b'p'; 10].to_vec();
    long.extend(b"q".repeat(300));

    node.insert(&short[..], 1);
    node.insert(&long[..], 2);
    assert_eq!(node.get(&short[..]), Some(&1));
    assert_eq!(node.get(&long[..]), Some(&2));

    // inserting another long sibling under the same short prefix
    let mut long2 = [b'p'; 10].to_vec();
    long2.extend(b"r".repeat(300));
    node.insert(&long2[..], 3);
    assert_eq!(node.get(&long2[..]), Some(&3));
    assert_eq!(node.get(&short[..]), Some(&1));
    assert_eq!(node.get(&long[..]), Some(&2));
}

// Three-chunk chain: label length > 2 * MAX_LABEL_LEN (>510 bytes).
#[test]
fn test_triple_chunk_long_label() {
    let mut node = Node::root();
    let label = [b'k'; 700];
    node.insert(&label[..], 42);
    assert_eq!(node.get(&label[..]), Some(&42));
    assert_eq!(node.remove(&label[..]), Some(42));
    assert_eq!(node.get(&label[..]), None);
}

// entry() API with a long-label key that needs chaining.
#[test]
fn test_entry_long_label() {
    let mut node = Node::root();
    let label = [b'm'; 600];
    node.entry(&label[..]).or_insert(99);
    assert_eq!(node.get(&label[..]), Some(&99));

    // calling entry again on the same key returns Occupied
    *node.entry(&label[..]).or_insert(0) = 100;
    assert_eq!(node.get(&label[..]), Some(&100));
}

// entry() with a partial-prefix-match long suffix.
#[test]
fn test_entry_partial_prefix_long_suffix() {
    let mut node = Node::root();
    let short = [b'e'; 5];
    node.insert(&short[..], 1);

    let mut long = [b'e'; 5].to_vec();
    long.extend(b"f".repeat(300));
    node.entry(&long[..]).or_insert(2);
    assert_eq!(node.get(&short[..]), Some(&1));
    assert_eq!(node.get(&long[..]), Some(&2));
}

#[test]
#[should_panic]
fn test_children_push_more_than_255_items() {
    let mut node = Node::root();
    for i in 0..=255_u8 {
        if i == 255 {
            // all the others have been inserted
            assert!(node.has_room(&i.to_be_bytes()[..]));
        }
        node.insert(&i.to_be_bytes()[..], i);
    }
}

#[test]
fn test_get_node() {
    let root = create_test_tree();
    // Exact matches
    assert_eq!(root.get_node("").unwrap().value(), None);
    assert_eq!(root.get_node("a").unwrap().label(), b"a");
    assert_eq!(root.get_node("a").unwrap().value(), Some(&1));
    assert_eq!(root.get_node("apple").unwrap().label(), b"e"); // "e" is the node for "apple"
    assert_eq!(root.get_node("apply").unwrap().label(), b"y"); // "y" is the node for "apply"
    assert_eq!(root.get_node("box").unwrap().label(), b"box");

    // Prefix of a node that's not been split on
    assert!(root.get_node("ap").is_none());
    assert!(root.get_node("bo").is_none());

    // Non-existent keys
    assert!(root.get_node("b").is_none());
    assert!(root.get_node("apples").is_none());
    assert!(root.get_node("xyz").is_none());

    // Intermediate node without a value
    let a_node = root.get_node("a").unwrap();
    let pp_node = a_node
        .children()
        .iter()
        .find(|n| n.label() == b"ppl")
        .unwrap();
    assert!(pp_node.value().is_none());
}

#[test]
fn test_get_node_mut() {
    let mut root = create_test_tree();

    // Exact match and mutate
    let apple_node = root.get_node_mut("apple").unwrap();
    assert_eq!(apple_node.value(), Some(&2));
    apple_node.set_value(20);
    assert_eq!(apple_node.value(), Some(&20));

    // Verify change from root
    assert_eq!(root.get("apple"), Some(&20));

    // Non-existent key
    assert!(root.get_node_mut("xyz").is_none());
}

#[test]
fn long_label_works() {
    let mut root = Node::root();
    root.insert(&[b'a'; 256][..], 10);
    assert_eq!(root.children()[0].label(), &[b'a'; 255][..]);
    assert_eq!(root.children()[0].value(), None);
    assert!(!root.children()[0].children().is_empty());

    let child = &root.children()[0].children()[0];
    assert_eq!(child.label(), b"a");
    assert_eq!(child.value(), Some(&10));
}

#[test]
fn test_try_merge_child_remove() {
    let mut root = Node::root();
    root.insert("a", 1);
    root.insert("ab", 2);
    root.insert("abc", 3);

    // Tree is: "" -> "a" (val:1) -> "b" (val:2) -> "c" (val:3)
    // Remove "ab". This leaves node "b" with no value and one child "c".
    // `try_merge_child` should be called on "b", merging it with "c".
    assert_eq!(root.remove("ab"), Some(2));

    // Check that node "b" has merged with "c" to become "bc".
    let node_a = root.get_node("a").unwrap();
    assert_eq!(node_a.children_len(), 1);
    let merged_node = &node_a.children()[0];
    assert_eq!(merged_node.label(), b"bc");
    assert_eq!(merged_node.value(), Some(&3));

    // Now, let's verify the whole tree structure via get.
    assert_eq!(root.get("a"), Some(&1));
    assert_eq!(root.get("ab"), None); // Was removed
    assert_eq!(root.get("abc"), Some(&3)); // Still accessible via the merged node

    // re-insert "ab"
    root.insert("ab", 2);
    assert_eq!(root.get("ab"), Some(&2));
}

#[test]
fn test_try_merge_child_integration() {
    // Scenario 1: A node with two children has one removed, leaving one.
    // The parent node has no value, so it should merge with the remaining child.
    let mut root = Node::root();
    root.insert("apply", 1);
    root.insert("apple", 2);
    // Tree is: "" -> "appl" -> ["y"(v:1), "e"(v:2)]
    // The "appl" node has no value.
    assert!(root.get_node("appl").unwrap().value().is_none());

    // Remove "apply". This leaves "appl" with one child, "e".
    assert_eq!(root.remove("apply"), Some(1));

    // "appl" should merge with "e" to become "apple".
    // The root should now have one child, "apple".
    assert_eq!(root.children_len(), 1);
    let merged_node = &root.children()[0];
    assert_eq!(merged_node.label(), b"apple");
    assert_eq!(merged_node.value(), Some(&2));

    // Scenario 2: A parent with a value should NOT merge, even if left with one child.
    let mut root = Node::root();
    root.insert("a", 10); // Parent "a" has a value.
    root.insert("ab", 2);
    root.insert("ac", 3);

    // Remove "ac". Node "a" is left with one child "b".
    assert_eq!(root.remove("ac"), Some(3));

    // Node "a" should NOT merge because it has a value.
    let node_a = root.get_node("a").unwrap();
    assert_eq!(node_a.value(), Some(&10));
    assert_eq!(node_a.children_len(), 1);
    assert_eq!(node_a.children()[0].label(), b"b");
}

#[test]
fn test_remove_on_labeled_root() {
    // nodes returned by `split_by_prefix` carry the full prefix as their
    // root label; `remove` must resolve keys the same way `get` does,
    // i.e. including the node's own label
    let mut root = Node::root();
    root.insert("apple", 1);
    root.insert("applesauce", 2);
    root.insert("box", 3);

    let mut detached = root.split_by_prefix("apple").unwrap();
    assert_eq!(detached.label(), b"apple");

    // a key shorter than the label is not in the tree
    assert_eq!(detached.remove("app"), None);
    assert_eq!(detached.remove("applesauce"), Some(2));
    assert_eq!(detached.get("applesauce"), None);
    assert_eq!(detached.remove("apple"), Some(1));
    assert_eq!(detached.get("apple"), None);

    // a child whose label repeats the root's label must not be mistaken
    // for the root's own key
    let mut root = Node::root();
    root.insert("appleapple", 1);
    root.insert("applebanana", 2);

    let mut detached = root.split_by_prefix("apple").unwrap();
    assert_eq!(detached.label(), b"apple");
    assert_eq!(detached.remove("apple"), None);
    assert_eq!(detached.get("appleapple"), Some(&1));
    assert_eq!(detached.remove("appleapple"), Some(1));
}
