use pfx::PrefixTreeSet;

fn keys(ss: &[&str]) -> Vec<Vec<u8>> {
    ss.iter().map(|s| s.as_bytes().to_vec()).collect()
}

fn members(set: &PrefixTreeSet) -> Vec<Vec<u8>> {
    let mut out = Vec::new();
    let mut it = set.iter();
    while let Some(k) = it.next() {
        out.push(k.clone());
    }
    out
}

#[test]
fn set_operations() {
    let x = PrefixTreeSet::from_keys(keys(&["abc", "def", "abc", "qux"]));
    let y = PrefixTreeSet::from_keys(keys(&["def", "qux", "what", "4lulz"]));

    assert_eq!(
        members(&x.clone().union(members(&y))),
        keys(&["4lulz", "abc", "def", "qux", "what"])
    );
    assert_eq!(x.clone().union(members(&x)), x);

    assert_eq!(
        members(&x.intersection(members(&y))),
        keys(&["def", "qux"])
    );
    assert_eq!(x.intersection(members(&x)), x);

    assert_eq!(members(&x.clone().difference(members(&y))), keys(&["abc"]));
    assert!(x.clone().difference(members(&x)).is_empty());

    assert_eq!(
        members(&x.clone().symmetric_difference(members(&y))),
        keys(&["4lulz", "abc", "what"])
    );
    assert!(x.clone().symmetric_difference(members(&x)).is_empty());
}

#[test]
fn set_algebra_examples() {
    let x = PrefixTreeSet::from_keys(keys(&["abc", "def", "qux"]));
    let y = PrefixTreeSet::from_keys(keys(&["def", "qux", "what"]));

    assert_eq!(
        members(&x.clone().union(members(&y))),
        keys(&["abc", "def", "qux", "what"])
    );
    assert_eq!(members(&x.intersection(members(&y))), keys(&["def", "qux"]));
    assert_eq!(members(&x.clone().difference(members(&y))), keys(&["abc"]));
    assert_eq!(
        members(&x.clone().symmetric_difference(members(&y))),
        keys(&["abc", "what"])
    );

    assert_eq!(members(&x.intersection(members(&x))), members(&x));
    assert!(x.clone().difference(members(&x)).is_empty());
    assert!(x.clone().symmetric_difference(members(&x)).is_empty());
}

#[test]
fn set_basics() {
    let mut s = PrefixTreeSet::new();
    assert!(s.is_empty());
    assert_eq!(s.len(), 0);

    assert!(s.insert(b"alpha"));
    assert!(!s.insert(b"alpha"));
    assert!(s.insert(b"beta"));
    assert_eq!(s.len(), 2);
    assert!(s.contains(b"alpha"));
    assert!(!s.contains(b"gamma"));

    assert!(s.remove(b"alpha"));
    assert!(!s.remove(b"alpha"));
    assert_eq!(s.len(), 1);

    s.compact();
    assert_eq!(s.len(), 1);
    assert!(s.contains(b"beta"));
}

#[test]
fn set_contains_prefix() {
    let mut s = PrefixTreeSet::new();
    s.insert(b"carpet");
    s.insert(b"cart");

    assert!(s.contains_prefix(b""));
    assert!(s.contains_prefix(b"car"));
    assert!(s.contains_prefix(b"carp"));
    assert!(!s.contains_prefix(b"card"));
    assert!(!s.contains_prefix(b"carpets"));

    s.remove(b"carpet");
    assert!(!s.contains_prefix(b"carp"));
    assert!(s.contains_prefix(b"cart"));
}

#[test]
fn set_iteration_is_sorted() {
    let s = PrefixTreeSet::from_keys(keys(&["pear", "apple", "plum", "fig"]));

    assert_eq!(members(&s), keys(&["apple", "fig", "pear", "plum"]));

    let mut it = s.iter();
    assert_eq!(it.len(), 4);
    assert!(it.next().is_some());
    assert_eq!(it.len(), 3);

    let mut owned: Vec<Vec<u8>> = Vec::new();
    let mut it = s.clone().into_iter();
    assert_eq!(it.len(), 4);
    while let Some(k) = it.next() {
        owned.push(k);
    }
    assert_eq!(owned, keys(&["apple", "fig", "pear", "plum"]));
}

#[test]
fn set_prefix_iteration() {
    let s = PrefixTreeSet::from_keys(keys(&["pear", "peach", "plum", "apple"]));

    let mut pe: Vec<Vec<u8>> = Vec::new();
    let mut it = s.prefix_iter(b"pe");
    while let Some(k) = it.next() {
        pe.push(k.clone());
    }
    assert_eq!(pe, keys(&["peach", "pear"]));

    let mut all: Vec<Vec<u8>> = Vec::new();
    let mut it = s.clone().into_prefix_iter(b"");
    while let Some(k) = it.next() {
        all.push(k);
    }
    assert_eq!(all, members(&s));

    assert!(s.prefix_iter(b"x").next().is_none());
}

#[test]
fn set_insertion_order_does_not_matter() {
    let s1 = PrefixTreeSet::from_keys(keys(&["b", "a", "c"]));
    let s2 = PrefixTreeSet::from_keys(keys(&["c", "b", "a"]));
    assert_eq!(s1, s2);
    assert_eq!(members(&s1), members(&s2));
}
