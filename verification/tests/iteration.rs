use fast_radix_trie::Node;

#[test]
fn iter_works() {
    let mut set = Node::root();
    set.insert("foo", ());
    set.insert("bar", ());
    set.insert("baz", ());

    let mut iter = set.iter();
    let nodes = std::iter::from_fn(|| iter.next())
        .map(|(level, node)| (level, node.label()))
        .collect::<Vec<_>>();
    assert_eq!(
        nodes,
        [
            (0, "".as_ref()),
            (1, "ba".as_ref()),
            (2, "r".as_ref()),
            (2, "z".as_ref()),
            (1, "foo".as_ref()),
        ]
    );

    let mut iter = set.iter_bfs();
    let nodes = std::iter::from_fn(|| iter.next())
        .map(|(level, node)| (level, node.label()))
        .collect::<Vec<_>>();
    assert_eq!(
        nodes,
        [
            (0, "".as_ref()),
            (1, "ba".as_ref()),
            (1, "foo".as_ref()),
            (2, "r".as_ref()),
            (2, "z".as_ref()),
        ]
    );

    let mut iter = set.into_iter_bfs();
    let nodes = std::iter::from_fn(|| iter.next())
        .map(|(level, node)| (level, node.label().to_vec()))
        .collect::<Vec<_>>();
    assert_eq!(
        nodes,
        [
            (0, b"".to_vec()),
            (1, b"ba".to_vec()),
            (1, b"foo".to_vec()),
            (2, b"r".to_vec()),
            (2, b"z".to_vec()),
        ]
    );
}

#[test]
fn iter_mut_works() {
    let mut set = Node::root();
    set.insert("foo", ());
    set.insert("bar", ());
    set.insert("baz", ());

    let mut iter = set.iter_mut();
    let nodes = std::iter::from_fn(|| iter.next())
        .map(|(level, node)| (level, node.label()))
        .collect::<Vec<_>>();
    assert_eq!(
        nodes,
        [
            (0, "".as_ref()),
            (1, "ba".as_ref()),
            (2, "r".as_ref()),
            (2, "z".as_ref()),
            (1, "foo".as_ref()),
        ]
    );

    let mut iter = set.iter_mut_bfs();
    let nodes = std::iter::from_fn(|| iter.next())
        .map(|(level, node)| (level, node.label()))
        .collect::<Vec<_>>();
    assert_eq!(
        nodes,
        [
            (0, "".as_ref()),
            (1, "ba".as_ref()),
            (1, "foo".as_ref()),
            (2, "r".as_ref()),
            (2, "z".as_ref()),
        ]
    );
}

#[test]
fn node_into_iter_works() {
    let mut set = Node::root();
    set.insert("foo", ());
    set.insert("bar", ());
    set.insert("baz", ());

    let mut iter = set.into_iter();
    let nodes = std::iter::from_fn(|| iter.next())
        .map(|(level, node)| (level, node.label().to_vec()))
        .collect::<Vec<_>>();
    assert_eq!(
        nodes,
        [
            (0, b"".to_vec()),
            (1, b"ba".to_vec()),
            (2, b"r".to_vec()),
            (2, b"z".to_vec()),
            (1, b"foo".to_vec()),
        ]
    );
}
