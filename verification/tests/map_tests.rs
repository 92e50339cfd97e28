use pfx::Entry;
use pfx::PrefixTreeMap;
use std::hash::DefaultHasher;
use std::hash::Hash;
use std::hash::Hasher;

fn str_pairs<V: Copy>(arr: &[(&str, V)]) -> Vec<(Vec<u8>, V)> {
    arr.iter().map(|(k, v)| (k.as_bytes().to_vec(), *v)).collect()
}

fn collect_pairs<V: Copy>(tree: &PrefixTreeMap<V>) -> Vec<(Vec<u8>, V)> {
    let mut out = Vec::new();
    let mut it = tree.iter();
    while let Some((k, v)) = it.next() {
        out.push((k.clone(), *v));
    }
    out
}

#[test]
fn basics() {
    let mut pt: PrefixTreeMap<u64> = PrefixTreeMap::new();

    assert!(pt.is_empty());
    assert_eq!(pt.len(), 0);

    assert!(!pt.contains_key(b"\0")); // the root node has the key 0
    assert!(!pt.contains_key(b""));

    assert!(pt.insert(b"foo", 42).is_none());
    assert!(pt.contains_key(b"foo"));
    assert_eq!(pt.len(), 1);
    assert_eq!(pt.get(b"foo").copied(), Some(42));
    assert_eq!(pt.insert(b"foo", 43), Some(42));
    assert_eq!(pt.len(), 1);

    pt.extend(vec![(b"bar".to_vec(), 137), (b"baz".to_vec(), 4224)]);

    assert_eq!(pt.len(), 3);
    assert!(pt.contains_key(b"bar"));
    assert!(pt.contains_key(b"baz"));

    assert_eq!(pt.remove(b"bar"), Some(137));
    assert_eq!(pt.len(), 2);
    assert!(!pt.contains_key(b"bar"));
    assert!(pt.contains_key(b"baz"));
    assert_eq!(pt.remove(b"bar"), None);
    assert_eq!(pt.len(), 2);

    pt.compact();

    assert_eq!(pt.len(), 2);
    assert!(pt.contains_key(b"baz"));
    assert!(!pt.contains_key(b"bar"));

    assert_eq!(pt.get_mut(b"baz").copied(), Some(4224));
    *pt.get_mut(b"baz").unwrap() = 999;
    assert_eq!(*pt.get(b"baz").unwrap(), 999);
}

#[test]
fn insertion_order_does_not_matter() {
    let mut strings = [
        ("foo", 1u64),
        ("bar", 2),
        ("baz", 3),
        ("qux", 4),
        ("abc", 5),
        ("def", 6),
        ("abcdef", 7),
        ("lol", 8),
        ("bazwut", 9),
    ];
    let pt1 = PrefixTreeMap::from_pairs(str_pairs(&strings));
    let reversed: Vec<(Vec<u8>, u64)> = str_pairs(&strings).into_iter().rev().collect();
    let pt2 = PrefixTreeMap::from_pairs(reversed);

    strings.sort();
    let pt3 = PrefixTreeMap::from_pairs(str_pairs(&strings));

    assert_eq!(pt1, pt2);
    assert_eq!(pt1, pt3);
    assert_eq!(pt2, pt3);

    assert_eq!(pt1.len(), strings.len());
    assert_eq!(pt2.len(), strings.len());
    assert_eq!(pt3.len(), strings.len());

    // the hashes must be equal regardless of insertion order
    let hashes = [pt1, pt2, pt3].map(|pt| {
        let mut hasher = DefaultHasher::new();
        pt.hash(&mut hasher);
        hasher.finish()
    });

    assert_eq!(hashes.iter().min().unwrap(), hashes.iter().max().unwrap());
}

#[test]
fn entry_api() {
    let mut pt: PrefixTreeMap<Vec<u32>> = PrefixTreeMap::new();

    // since the entry API inserts nodes, double-check
    // that it doesn't accidentally insert spurious values
    assert!(matches!(pt.entry(&[42, 43, 44, 45]), Entry::Vacant(_)));
    assert!(matches!(pt.entry(&[42, 43, 44, 45]), Entry::Vacant(_)));

    let entry = pt.entry(&[42, 43, 44, 45]);
    let entry = entry.and_modify(&mut pt, |_| {
        panic!("and_modify() shouldn't fire for a vacant entry")
    });
    let val = entry.or_insert(&mut pt, vec![9, 8, 7]);

    assert_eq!(*val, &[9, 8, 7]);

    val.push(6);
    assert_eq!(*val, &[9, 8, 7, 6]);
    assert_eq!(
        pt.get(b"*+,-").map(Vec::as_slice),
        Some([9, 8, 7, 6].as_slice())
    );

    let empty = pt.entry(b"wxyz").or_default(&mut pt);
    assert_eq!(empty.len(), 0);

    assert!(pt.entry(b"nope").remove(&mut pt).is_none());
}

#[test]
fn iteration() {
    let data = [
        ("don", 314u32),
        ("linus", 1337),
        ("bill", 666),
        ("steve", 1984),
        ("larry", 600613),
        ("lattner", u32::from_le_bytes(*b"LLVM")),
    ];
    let tree = PrefixTreeMap::from_pairs(str_pairs(&data));

    let mut keys: Vec<Vec<u8>> = Vec::new();
    let mut kit = tree.keys();
    while let Some(k) = kit.next() {
        keys.push(k.clone());
    }
    assert_eq!(
        keys,
        [
            b"bill".to_vec(),
            b"don".to_vec(),
            b"larry".to_vec(),
            b"lattner".to_vec(),
            b"linus".to_vec(),
            b"steve".to_vec(),
        ]
    );

    let mut values: Vec<u32> = Vec::new();
    let mut vit = tree.values();
    while let Some(v) = vit.next() {
        values.push(*v);
    }
    assert_eq!(values, [666, 314, 600613, 1297501260, 1337, 1984]);

    let mut iter = tree.iter();
    assert_eq!(iter.len(), data.len());

    assert!(iter.next().is_some());
    assert!(iter.next().is_some());
    assert_eq!(iter.len(), data.len() - 2);

    let mut iter = tree.clone().into_iter();
    assert_eq!(iter.len(), data.len());

    assert!(iter.next().is_some());
    assert!(iter.next().is_some());
    assert!(iter.next().is_some());
    assert_eq!(iter.len(), data.len() - 3);

    // Prefix search
    let mut la: Vec<(Vec<u8>, u32)> = Vec::new();
    let mut it = tree.prefix_iter(b"la");
    while let Some((k, v)) = it.next() {
        la.push((k.clone(), *v));
    }
    assert_eq!(
        la,
        [
            (b"larry".to_vec(), 600613),
            (b"lattner".to_vec(), 1297501260),
        ]
    );

    let mut l: Vec<(Vec<u8>, u32)> = Vec::new();
    let mut it = tree.clone().into_prefix_iter(b"l");
    while let Some((k, v)) = it.next() {
        l.push((k, v));
    }
    assert_eq!(
        l,
        [
            (b"larry".to_vec(), 600613),
            (b"lattner".to_vec(), 1297501260),
            (b"linus".to_vec(), 1337),
        ]
    );

    assert!(tree.prefix_iter(b"a").next().is_none());
    assert!(tree.prefix_iter(b"b").next().is_some());
    assert!(tree.prefix_iter(b"c").next().is_none());

    // the empty prefix should yield the entire tree
    let mut whole: Vec<(Vec<u8>, u32)> = Vec::new();
    let mut it = tree.prefix_iter(b"");
    while let Some((k, v)) = it.next() {
        whole.push((k.clone(), *v));
    }
    assert_eq!(whole, collect_pairs(&tree));

    let mut whole_owned: Vec<(Vec<u8>, u32)> = Vec::new();
    let mut it = tree.clone().into_prefix_iter(b"");
    while let Some((k, v)) = it.next() {
        whole_owned.push((k, v));
    }
    assert_eq!(whole_owned, collect_pairs(&tree));
}

#[test]
fn map_example_scenario() {
    let mut map: PrefixTreeMap<u64> = PrefixTreeMap::new();

    map.insert(b"abc", 123);
    map.insert(b"def", 456);
    map.insert(b"defghi", 789);

    assert_eq!(map.get(b"abc").copied(), Some(123));
    assert_eq!(map.get(b"abcdef").copied(), None);
    assert_eq!(map.get(b"ab").copied(), None);

    let mut de: Vec<(Vec<u8>, u64)> = Vec::new();
    let mut it = map.prefix_iter(b"de");
    while let Some((k, v)) = it.next() {
        de.push((k.clone(), *v));
    }
    assert_eq!(de, [(b"def".to_vec(), 456), (b"defghi".to_vec(), 789)]);
}

#[test]
fn round_trip_prior_value() {
    let mut pt: PrefixTreeMap<u32> = PrefixTreeMap::new();
    assert_eq!(pt.insert(b"key", 1), None);
    assert_eq!(pt.get(b"key").copied(), Some(1));
    assert_eq!(pt.insert(b"key", 2), Some(1));
    assert_eq!(pt.get(b"key").copied(), Some(2));
    assert_eq!(pt.len(), 1);
}

#[test]
fn removal_changes_len_only_when_present() {
    let mut pt: PrefixTreeMap<u32> = PrefixTreeMap::new();
    pt.insert(b"alpha", 10);
    pt.insert(b"beta", 20);

    assert_eq!(pt.remove(b"gamma"), None);
    assert_eq!(pt.len(), 2);

    assert_eq!(pt.remove(b"alpha"), Some(10));
    assert_eq!(pt.len(), 1);
    assert!(!pt.contains_key(b"alpha"));
}

#[test]
fn compaction_is_idempotent() {
    let mut pt: PrefixTreeMap<u32> = PrefixTreeMap::new();
    pt.insert(b"one", 1);
    pt.insert(b"onetwo", 12);
    pt.insert(b"three", 3);
    pt.remove(b"onetwo");
    // a vacant entry leaves spurious empty nodes behind
    assert!(matches!(pt.entry(b"unused_path"), Entry::Vacant(_)));

    pt.compact();
    let once = pt.clone();
    let len_once = pt.len();
    let pairs_once = collect_pairs(&pt);

    pt.compact();
    pt.compact();
    assert_eq!(pt.len(), len_once);
    assert_eq!(collect_pairs(&pt), pairs_once);
    assert_eq!(pt, once);
    assert!(pt.contains_key(b"one"));
    assert!(pt.contains_key(b"three"));
    assert!(!pt.contains_key(b"onetwo"));
    assert!(!pt.contains_key(b"unused_path"));
}

#[test]
fn entry_non_duplication() {
    let mut pt: PrefixTreeMap<u32> = PrefixTreeMap::new();
    pt.insert(b"present", 5);

    assert!(matches!(pt.entry(b"missing"), Entry::Vacant(_)));
    assert!(matches!(pt.entry(b"missing"), Entry::Vacant(_)));
    assert_eq!(pt.len(), 1);
    assert!(matches!(pt.entry(b"present"), Entry::Occupied(_)));
    assert_eq!(pt.len(), 1);
}

#[test]
fn entry_combinators() {
    let mut pt: PrefixTreeMap<u32> = PrefixTreeMap::new();

    let v = pt.entry(b"a").or_insert_with(&mut pt, || 41);
    *v += 1;
    assert_eq!(pt.get(b"a").copied(), Some(42));

    let v = pt.entry(b"a").or_insert_with(&mut pt, || 0);
    assert_eq!(*v, 42);

    let v = pt
        .entry(b"bc")
        .or_insert_with_key(&mut pt, |k| k.len() as u32);
    assert_eq!(*v, 2);

    let e = pt.entry(b"a").and_modify(&mut pt, |v| v + 8);
    assert!(matches!(e, Entry::Occupied(_)));
    assert_eq!(*e.key(), b"a".to_vec());
    assert_eq!(pt.get(b"a").copied(), Some(50));

    match pt.entry(b"a") {
        Entry::Occupied(e) => {
            assert_eq!(*e.get(&pt), 50);
            assert_eq!(e.insert(&mut pt, 51), 50);
            *e.get_mut(&mut pt) += 1;
            let slot = e.into_mut(&mut pt);
            assert_eq!(*slot, 52);
        }
        Entry::Vacant(_) => panic!("the key must be occupied here"),
    }
    match pt.entry(b"a") {
        Entry::Occupied(e) => {
            let (key, value) = e.remove_entry(&mut pt);
            assert_eq!(key, b"a".to_vec());
            assert_eq!(value, 52);
        }
        Entry::Vacant(_) => panic!("the key must be occupied here"),
    }
    assert!(!pt.contains_key(b"a"));

    match pt.entry(b"fresh") {
        Entry::Vacant(e) => {
            assert_eq!(*e.key(), b"fresh".to_vec());
            let v = e.insert(&mut pt, 7);
            assert_eq!(*v, 7);
        }
        Entry::Occupied(_) => panic!("the key must be vacant here"),
    }
    assert_eq!(pt.get(b"fresh").copied(), Some(7));

    match pt.entry(b"fresh2") {
        Entry::Vacant(e) => {
            assert_eq!(e.into_key(), b"fresh2".to_vec());
        }
        Entry::Occupied(_) => panic!("the key must be vacant here"),
    }
}

#[test]
fn get_entry_returns_stored_key() {
    let mut pt: PrefixTreeMap<u8> = PrefixTreeMap::new();
    pt.insert(b"stored", 9);

    let (k, v) = pt.get_entry(b"stored").unwrap();
    assert_eq!(k, &b"stored".to_vec());
    assert_eq!(*v, 9);
    assert!(pt.get_entry(b"absent").is_none());

    let (k, v) = pt.get_entry_mut(b"stored").unwrap();
    assert_eq!(k, b"stored".to_vec());
    *v = 10;
    assert_eq!(pt.get(b"stored").copied(), Some(10));
    assert!(pt.get_entry_mut(b"absent").is_none());
}

#[test]
fn remove_entry_returns_pair() {
    let mut pt: PrefixTreeMap<u8> = PrefixTreeMap::new();
    pt.insert(b"pair", 3);
    assert_eq!(pt.remove_entry(b"pair"), Some((b"pair".to_vec(), 3)));
    assert_eq!(pt.remove_entry(b"pair"), None);
}

#[test]
fn empty_key_lives_on_the_root() {
    let mut pt: PrefixTreeMap<u16> = PrefixTreeMap::new();
    assert_eq!(pt.insert(b"", 77), None);
    assert_eq!(pt.len(), 1);
    assert_eq!(pt.get(b"").copied(), Some(77));

    pt.insert(b"x", 88);
    let pairs = collect_pairs(&pt);
    assert_eq!(pairs, [(b"".to_vec(), 77), (b"x".to_vec(), 88)]);

    assert_eq!(pt.remove(b""), Some(77));
    assert_eq!(pt.len(), 1);
}

#[test]
fn into_keys_and_values() {
    let tree = PrefixTreeMap::from_pairs(str_pairs(&[("b", 2u8), ("a", 1), ("c", 3)]));

    let mut keys: Vec<Vec<u8>> = Vec::new();
    let mut it = tree.clone().into_keys();
    assert_eq!(it.len(), 3);
    while let Some(k) = it.next() {
        keys.push(k);
    }
    assert_eq!(keys, [b"a".to_vec(), b"b".to_vec(), b"c".to_vec()]);

    let mut values: Vec<u8> = Vec::new();
    let mut it = tree.into_values();
    while let Some(v) = it.next() {
        values.push(v);
    }
    assert_eq!(values, [1, 2, 3]);
}

#[test]
fn map_set_algebra() {
    let x = PrefixTreeMap::from_pairs(str_pairs(&[("abc", 1u8), ("def", 2), ("qux", 3)]));
    let other = str_pairs(&[("def", 20u8), ("qux", 30), ("what", 40)]);
    let other_keys: Vec<Vec<u8>> =
        vec![b"def".to_vec(), b"qux".to_vec(), b"what".to_vec()];

    // union is right-biased
    let u = x.clone().union(other.clone());
    assert_eq!(
        collect_pairs(&u),
        [
            (b"abc".to_vec(), 1),
            (b"def".to_vec(), 20),
            (b"qux".to_vec(), 30),
            (b"what".to_vec(), 40),
        ]
    );

    // intersection keeps the values of self
    let i = x.clone().intersection(other_keys.clone());
    assert_eq!(
        collect_pairs(&i),
        [(b"def".to_vec(), 2), (b"qux".to_vec(), 3)]
    );

    // difference drops the keys of other
    let d = x.clone().difference(other_keys);
    assert_eq!(collect_pairs(&d), [(b"abc".to_vec(), 1)]);

    // symmetric difference keeps each side's own values
    let s = x.symmetric_difference(other);
    assert_eq!(
        collect_pairs(&s),
        [(b"abc".to_vec(), 1), (b"what".to_vec(), 40)]
    );
}

#[test]
fn contains_prefix_on_maps() {
    let mut pt: PrefixTreeMap<u8> = PrefixTreeMap::new();
    pt.insert(b"carpet", 1);
    pt.insert(b"car", 2);

    assert!(pt.contains_prefix(b""));
    assert!(pt.contains_prefix(b"car"));
    assert!(pt.contains_prefix(b"carp"));
    assert!(!pt.contains_prefix(b"cart"));
    assert!(!pt.contains_prefix(b"carpets"));

    pt.remove(b"carpet");
    // the nodes of the removed key linger until compaction, but they hold
    // no entry and must not count as a live prefix
    assert!(!pt.contains_prefix(b"carp"));
    pt.compact();
    assert!(!pt.contains_prefix(b"carp"));
    assert!(pt.contains_prefix(b"ca"));
}
