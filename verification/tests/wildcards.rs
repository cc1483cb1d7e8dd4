use fast_radix_trie::{BorrowedBytes, Node, Pattern, WildcardFilter};

/// The keys with a value that match `pattern`.
fn hits<V, K: ?Sized + BorrowedBytes>(root: &Node<V>, pattern: &K) -> Vec<Vec<u8>> {
    let mut iter = root.wildcard_iter(pattern);
    std::iter::from_fn(|| iter.next())
        .filter(|found| found.node.value().is_some())
        .map(|found| found.key)
        .collect()
}

#[test]
fn wildcard_parse() {
    // literal
    assert_eq!(
        WildcardFilter::parse(b"foo"),
        vec![Pattern::Literal(b"foo")]
    );

    // *
    assert_eq!(
        WildcardFilter::parse(b"foo.*.com"),
        vec![
            Pattern::Literal(b"foo."),
            Pattern::Any,
            Pattern::Literal(b".com")
        ]
    );

    // ?
    assert_eq!(
        WildcardFilter::parse(b"ba?.txt"),
        vec![
            Pattern::Literal(b"ba"),
            Pattern::One,
            Pattern::Literal(b".txt")
        ]
    );

    // multiple wildcards
    assert_eq!(
        WildcardFilter::parse(b"*.*"),
        vec![Pattern::Any, Pattern::Literal(b"."), Pattern::Any]
    );

    // multiple consecutive * should collapse to single Any
    assert_eq!(
        WildcardFilter::parse(b"foo.**.com"),
        vec![
            Pattern::Literal(b"foo."),
            Pattern::Any,
            Pattern::Literal(b".com")
        ]
    );

    assert_eq!(
        WildcardFilter::parse(b"foo.****bar"),
        vec![
            Pattern::Literal(b"foo."),
            Pattern::Any,
            Pattern::Literal(b"bar")
        ]
    );

    // mixed wildcards
    assert_eq!(
        WildcardFilter::parse(b"f?o.*.???.com"),
        vec![
            Pattern::Literal(b"f"),
            Pattern::One,
            Pattern::Literal(b"o."),
            Pattern::Any,
            Pattern::Literal(b"."),
            Pattern::One,
            Pattern::One,
            Pattern::One,
            Pattern::Literal(b".com")
        ]
    );

    // pattern starting with wildcard
    assert_eq!(
        WildcardFilter::parse(b"*.com"),
        vec![Pattern::Any, Pattern::Literal(b".com")]
    );

    // pattern ending with wildcard
    assert_eq!(
        WildcardFilter::parse(b"foo.*"),
        vec![Pattern::Literal(b"foo."), Pattern::Any]
    );

    // only wildcards
    assert_eq!(
        // ** -> *
        // *? -> ?*
        // ?** -> ?*
        WildcardFilter::parse(b"**?*"),
        vec![Pattern::One, Pattern::Any]
    );

    // *?? changes to ??*
    assert_eq!(
        WildcardFilter::parse(b"foo.*??.com"),
        vec![
            Pattern::Literal(b"foo."),
            Pattern::One,
            Pattern::One,
            Pattern::Any,
            Pattern::Literal(b".com")
        ]
    );

    // *??? changes to ???*
    assert_eq!(
        WildcardFilter::parse(b"foo.*???.com"),
        vec![
            Pattern::Literal(b"foo."),
            Pattern::One,
            Pattern::One,
            Pattern::One,
            Pattern::Any,
            Pattern::Literal(b".com")
        ]
    );

    // *?*? changes to ??*
    assert_eq!(
        WildcardFilter::parse(b"foo.*?*?.com"),
        vec![
            Pattern::Literal(b"foo."),
            Pattern::One,
            Pattern::One,
            Pattern::Any,
            Pattern::Literal(b".com")
        ]
    );
}

#[test]
fn wildcard_iter_works() {
    let mut set = Node::root();
    set.insert("foo.bar.com", ());
    set.insert("foo.baz.com", ());
    set.insert("foo.qux.com", ());
    set.insert("hello.world", ());
    set.insert("hello.rust", ());
    set.insert("test", ());
    set.insert("foobar", ());

    // matches zero or more characters
    let matches: Vec<_> = hits(&set, b"foo.*.com")
        .into_iter()
        .map(|k| String::from_utf8(k).unwrap())
        .collect();
    assert_eq!(matches.len(), 3);
    assert!(matches.contains(&"foo.bar.com".to_string()));
    assert!(matches.contains(&"foo.baz.com".to_string()));
    assert!(matches.contains(&"foo.qux.com".to_string()));

    // matches zero chars
    let matches: Vec<_> = hits(&set, b"foo.bar*.com")
        .into_iter()
        .map(|k| String::from_utf8(k).unwrap())
        .collect();
    assert_eq!(matches.len(), 1);
    assert!(matches.contains(&"foo.bar.com".to_string()));

    // matches single character
    let matches: Vec<_> = hits(&set, b"foo.ba?.com")
        .into_iter()
        .map(|k| String::from_utf8(k).unwrap())
        .collect();
    assert_eq!(matches.len(), 2);
    assert!(matches.contains(&"foo.bar.com".to_string()));
    assert!(matches.contains(&"foo.baz.com".to_string()));

    // ending *
    let matches: Vec<_> = hits(&set, b"foo.*")
        .into_iter()
        .map(|k| String::from_utf8(k).unwrap())
        .collect();
    assert_eq!(matches.len(), 3);
    assert!(matches.contains(&"foo.bar.com".to_string()));
    assert!(matches.contains(&"foo.baz.com".to_string()));
    assert!(matches.contains(&"foo.qux.com".to_string()));

    let matches: Vec<_> = hits(&set, b"hello.*")
        .into_iter()
        .map(|k| String::from_utf8(k).unwrap())
        .collect();
    assert_eq!(matches.len(), 2);
    assert!(matches.contains(&"hello.world".to_string()));
    assert!(matches.contains(&"hello.rust".to_string()));

    // exact match
    let matches: Vec<_> = hits(&set, b"test")
        .into_iter()
        .map(|k| String::from_utf8(k).unwrap())
        .collect();
    assert_eq!(matches, vec!["test"]);

    // no matches
    let matches: Vec<_> = hits(&set, b"nonexistent.*")
        .into_iter()
        .map(|k| String::from_utf8(k).unwrap())
        .collect();
    assert_eq!(matches.len(), 0);

    // * at beginning
    let matches: Vec<_> = hits(&set, b"*.com")
        .into_iter()
        .map(|k| String::from_utf8(k).unwrap())
        .collect();
    assert_eq!(matches.len(), 3);

    // multiple *
    let matches: Vec<_> = hits(&set, b"*.*")
        .into_iter()
        .map(|k| String::from_utf8(k).unwrap())
        .collect();
    assert_eq!(matches.len(), 5);

    // ? with multiple positions
    let matches: Vec<_> = hits(&set, b"foo???")
        .into_iter()
        .map(|k| String::from_utf8(k).unwrap())
        .collect();
    assert_eq!(matches, vec!["foobar"]);
}

#[test]
fn wildcard_parse_escaped() {
    assert_eq!(WildcardFilter::parse(b"\\*"), vec![Pattern::Literal(b"*")]);

    assert_eq!(WildcardFilter::parse(b"\\?"), vec![Pattern::Literal(b"?")]);

    // escaped wildcard followed by literal chars
    assert_eq!(
        WildcardFilter::parse(b"\\*foo"),
        vec![Pattern::Literal(b"*foo")]
    );

    // mix: literal prefix, escaped *, literal suffix
    assert_eq!(
        WildcardFilter::parse(b"foo.\\*.com"),
        vec![Pattern::Literal(b"foo."), Pattern::Literal(b"*.com")]
    );
}

#[test]
fn wildcard_iter_escaped() {
    let mut set = Node::root();
    set.insert("foo.*.com", ());
    set.insert("foo.bar.com", ());
    set.insert("foo.?.com", ());

    let matches: Vec<_> = hits(&set, b"foo.\\*.com")
        .into_iter()
        .map(|k| String::from_utf8(k).unwrap())
        .collect();
    assert_eq!(matches, vec!["foo.*.com"]);

    let matches: Vec<_> = hits(&set, b"foo.*.com")
        .into_iter()
        .map(|k| String::from_utf8(k).unwrap())
        .collect();
    assert_eq!(matches.len(), 3);

    let matches: Vec<_> = hits(&set, b"foo.\\?.com")
        .into_iter()
        .map(|k| String::from_utf8(k).unwrap())
        .collect();
    assert_eq!(matches, vec!["foo.?.com"]);
}

#[test]
fn wildcard_iter_calling_conventions() {
    let mut byte_set = Node::root();
    byte_set.insert("foo.bar.com", ());
    byte_set.insert("foo.baz.com", ());
    byte_set.insert("hello.world", ());

    // byte literal
    let matches: Vec<_> = hits(&byte_set, b"foo.*.com");
    assert_eq!(matches.len(), 2);

    // &[u8] slice reference
    let pattern: &[u8] = b"foo.*.com";
    let matches: Vec<_> = hits(&byte_set, pattern);
    assert_eq!(matches.len(), 2);

    // str
    let matches: Vec<_> = hits(&byte_set, "foo.*.com");
    assert_eq!(matches.len(), 2);

    // &String
    let owned = String::from("foo.*.com");
    let matches: Vec<_> = hits(&byte_set, &owned);
    assert_eq!(matches.len(), 2);

    // &Vec<u8>
    let owned_bytes = b"foo.*.com".to_vec();
    let matches: Vec<_> = hits(&byte_set, &owned_bytes);
    assert_eq!(matches.len(), 2);

    // keys that are strings
    let mut str_set = Node::root();
    str_set.insert("foo.bar.com", ());
    str_set.insert("foo.baz.com", ());
    str_set.insert("hello.world", ());

    // str
    let matches: Vec<_> = hits(&str_set, "foo.*.com");
    assert_eq!(matches.len(), 2);

    // &String
    let owned_str = String::from("foo.*.com");
    let matches: Vec<_> = hits(&str_set, &owned_str);
    assert_eq!(matches.len(), 2);

    // values other than ()
    let mut map = Node::root();
    map.insert("foo.bar.com", 1u32);
    map.insert("foo.baz.com", 2u32);
    map.insert("hello.world", 3u32);

    let matches: Vec<_> = hits(&map, b"foo.*.com");
    assert_eq!(matches.len(), 2);

    let matches: Vec<_> = hits(&map, "foo.*.com");
    assert_eq!(matches.len(), 2);

    // both
    let mut str_map = Node::root();
    str_map.insert("foo.bar.com", 1u32);
    str_map.insert("foo.baz.com", 2u32);
    str_map.insert("hello.world", 3u32);

    // str
    let matches: Vec<_> = hits(&str_map, "foo.*.com");
    assert_eq!(matches.len(), 2);

    // &String
    let matches: Vec<_> = hits(&str_map, &owned_str);
    assert_eq!(matches.len(), 2);
}
