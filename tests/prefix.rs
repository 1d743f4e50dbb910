use cw_storage_plus::bound::{calc_end_bound, calc_prefix_end_bound, calc_prefix_start_bound, calc_start_bound, increment_last_byte};
use cw_storage_plus::codec::{encode_text, join_key};
use cw_storage_plus::{range_with_prefix, Order, Prefix, RawBound, StorageError, Store};

fn foo_prefix() -> Prefix {
    // manually create this - not testing nested prefixes here
    Prefix::from_raw(b"foo".to_vec())
}

fn as_u64(v: &[u8]) -> u64 {
    std::str::from_utf8(v).unwrap().parse().unwrap()
}

fn decoded(res: Vec<(Vec<u8>, Vec<u8>)>) -> Vec<(Vec<u8>, u64)> {
    res.into_iter().map(|(k, v)| (k, as_u64(&v))).collect()
}

#[test]
fn prefix_ensure_proper_range_bounds() {
    let mut store = Store::new();
    let prefix = foo_prefix();

    // set some data, we care about "foo" prefix
    store.set(b"foobar", b"1");
    store.set(b"foora", b"2");
    store.set(b"foozi", b"3");
    // these shouldn't match
    store.set(b"foply", b"100");
    store.set(b"font", b"200");

    let expected = vec![
        (b"bar".to_vec(), 1u64),
        (b"ra".to_vec(), 2u64),
        (b"zi".to_vec(), 3u64),
    ];
    let expected_reversed: Vec<(Vec<u8>, u64)> = expected.iter().rev().cloned().collect();

    // let's do the basic sanity check
    let res = prefix.range_raw(&store, None, None, Order::Ascending).unwrap();
    assert_eq!(&expected, &decoded(res));
    let res = prefix.range_raw(&store, None, None, Order::Descending).unwrap();
    assert_eq!(&expected_reversed, &decoded(res));

    // now let's check some ascending ranges
    let res = prefix
        .range_raw(&store, Some(&RawBound::Inclusive(b"ra".to_vec())), None, Order::Ascending)
        .unwrap();
    assert_eq!(&expected[1..], decoded(res).as_slice());
    // skip excluded
    let res = prefix
        .range_raw(&store, Some(&RawBound::Exclusive(b"ra".to_vec())), None, Order::Ascending)
        .unwrap();
    assert_eq!(&expected[2..], decoded(res).as_slice());
    // if we exclude something a little lower, we get matched
    let res = prefix
        .range_raw(&store, Some(&RawBound::Exclusive(b"r".to_vec())), None, Order::Ascending)
        .unwrap();
    assert_eq!(&expected[1..], decoded(res).as_slice());

    // now let's check some descending ranges
    let res = prefix
        .range_raw(&store, None, Some(&RawBound::Inclusive(b"ra".to_vec())), Order::Descending)
        .unwrap();
    assert_eq!(&expected_reversed[1..], decoded(res).as_slice());
    // skip excluded
    let res = prefix
        .range_raw(&store, None, Some(&RawBound::Exclusive(b"ra".to_vec())), Order::Descending)
        .unwrap();
    assert_eq!(&expected_reversed[2..], decoded(res).as_slice());
    // if we exclude something a little higher, we get matched
    let res = prefix
        .range_raw(&store, None, Some(&RawBound::Exclusive(b"rb".to_vec())), Order::Descending)
        .unwrap();
    assert_eq!(&expected_reversed[1..], decoded(res).as_slice());

    // now test when both sides are set
    let res = prefix
        .range_raw(
            &store,
            Some(&RawBound::Inclusive(b"ra".to_vec())),
            Some(&RawBound::Exclusive(b"zi".to_vec())),
            Order::Ascending,
        )
        .unwrap();
    assert_eq!(&expected[1..2], decoded(res).as_slice());
    // and descending
    let res = prefix
        .range_raw(
            &store,
            Some(&RawBound::Inclusive(b"ra".to_vec())),
            Some(&RawBound::Exclusive(b"zi".to_vec())),
            Order::Descending,
        )
        .unwrap();
    assert_eq!(&expected[1..2], decoded(res).as_slice());
    // Include both sides
    let res = prefix
        .range_raw(
            &store,
            Some(&RawBound::Inclusive(b"ra".to_vec())),
            Some(&RawBound::Inclusive(b"zi".to_vec())),
            Order::Descending,
        )
        .unwrap();
    assert_eq!(&expected_reversed[..2], decoded(res).as_slice());
    // Exclude both sides
    let res = prefix
        .range_raw(
            &store,
            Some(&RawBound::Exclusive(b"ra".to_vec())),
            Some(&RawBound::Exclusive(b"zi".to_vec())),
            Order::Ascending,
        )
        .unwrap();
    assert_eq!(decoded(res).as_slice(), &[]);
}

#[test]
fn prefix_clear_limited() {
    let mut store = Store::new();
    let prefix = foo_prefix();

    // set some data, we care about "foo" prefix
    for i in 0..100u32 {
        store.set(format!("foo{i}").as_bytes(), b"1");
    }

    // clearing a single entry should work
    prefix.clear(&mut store, Some(1));
    assert_eq!(prefix.range_raw(&store, None, None, Order::Ascending).unwrap().len(), 99);

    // clearing several entries should work
    prefix.clear(&mut store, Some(12));
    assert_eq!(prefix.range_raw(&store, None, None, Order::Ascending).unwrap().len(), 99 - 12);

    // clearing a round number of entries should work
    prefix.clear(&mut store, Some(20));
    assert_eq!(prefix.range_raw(&store, None, None, Order::Ascending).unwrap().len(), 99 - 12 - 20);

    // clearing more than available should work
    prefix.clear(&mut store, Some(1000));
    assert_eq!(prefix.range_raw(&store, None, None, Order::Ascending).unwrap().len(), 0);
}

#[test]
fn prefix_clear_unlimited() {
    let mut store = Store::new();
    let prefix = foo_prefix();

    // set some data, we care about "foo" prefix
    for i in 0..1000u32 {
        store.set(format!("foo{i}").as_bytes(), b"1");
    }

    // clearing all should work
    prefix.clear(&mut store, None);
    assert_eq!(prefix.range_raw(&store, None, None, Order::Ascending).unwrap().len(), 0);

    // set less data
    for i in 0..5u32 {
        store.set(format!("foo{i}").as_bytes(), b"1");
    }

    // clearing all should work
    prefix.clear(&mut store, None);
    assert_eq!(prefix.range_raw(&store, None, None, Order::Ascending).unwrap().len(), 0);
}

#[test]
fn clear_removes_smallest_keys_first() {
    let mut store = Store::new();
    let prefix = foo_prefix();
    store.set(b"fooc", b"3");
    store.set(b"fooa", b"1");
    store.set(b"foob", b"2");
    store.set(b"fop", b"9");
    prefix.clear(&mut store, Some(2));
    assert_eq!(store.get(b"fooa"), None);
    assert_eq!(store.get(b"foob"), None);
    assert_eq!(store.get(b"fooc"), Some(b"3".to_vec()));
    assert_eq!(store.get(b"fop"), Some(b"9".to_vec()));
}

#[test]
fn prefix_is_empty_works() {
    let prefix = foo_prefix();
    let mut storage = Store::new();

    assert!(prefix.is_empty(&storage));

    storage.set(b"fookey1", b"1");
    storage.set(b"fookey2", b"2");

    assert!(!prefix.is_empty(&storage));
}

#[test]
fn prefix_keys_raw_works() {
    let prefix = foo_prefix();
    let mut storage = Store::new();
    storage.set(b"fookey1", b"1");
    storage.set(b"fookey2", b"2");

    let keys = prefix.keys_raw(&storage, None, None, Order::Ascending).unwrap();
    assert_eq!(keys, vec![b"key1", b"key2"]);

    let keys = prefix
        .keys_raw(&storage, Some(&RawBound::Exclusive(b"key1".to_vec())), None, Order::Ascending)
        .unwrap();
    assert_eq!(keys, vec![b"key2"]);
}

#[test]
fn nested_prefix_layout() {
    let prefix = Prefix::new(b"lol", &vec![vec![8u8]]);
    assert_eq!(prefix.as_slice(), &[0, 3, 108, 111, 108, 0, 1, 8]);
    assert_eq!(join_key(&vec![encode_text("a")]), b"a".to_vec());
}

#[test]
fn test_namespace_upper_bound() {
    assert_eq!(increment_last_byte(b"bob"), Some(b"boc".to_vec()));
    assert_eq!(increment_last_byte(b"fo\xfe"), Some(b"fo\xff".to_vec()));
    assert_eq!(increment_last_byte(b"fo\xff"), Some(b"fp\x00".to_vec()));
    // multiple \xff roll over
    assert_eq!(increment_last_byte(b"fo\xff\xff\xff"), Some(b"fp\x00\x00\x00".to_vec()));
    // \xff not at the end are ignored
    assert_eq!(increment_last_byte(b"\xffabc"), Some(b"\xffabd".to_vec()));
    // nothing lies above an all-0xFF string of its length
    assert_eq!(increment_last_byte(b"\xff\xff"), None);
    assert_eq!(increment_last_byte(b""), None);
}

#[test]
fn raw_bounds_are_exact() {
    assert_eq!(calc_start_bound(b"ns", None), b"ns".to_vec());
    assert_eq!(calc_start_bound(b"ns", Some(&RawBound::Inclusive(b"k".to_vec()))), b"nsk".to_vec());
    assert_eq!(calc_start_bound(b"ns", Some(&RawBound::Exclusive(b"k".to_vec()))), b"nsk\x00".to_vec());
    assert_eq!(calc_end_bound(b"ns", None), Some(b"nt".to_vec()));
    assert_eq!(calc_end_bound(b"\xff", None), None);
    assert_eq!(calc_end_bound(b"ns", Some(&RawBound::Exclusive(b"k".to_vec()))), Some(b"nsk".to_vec()));
    assert_eq!(calc_end_bound(b"ns", Some(&RawBound::Inclusive(b"k".to_vec()))), Some(b"nsk\x00".to_vec()));
    assert_eq!(calc_prefix_start_bound(b"ns", Some(&RawBound::Exclusive(b"k".to_vec()))), Ok(b"nsl".to_vec()));
    assert_eq!(
        calc_prefix_start_bound(b"ns", Some(&RawBound::Exclusive(b"\xff".to_vec()))),
        Err(StorageError::InvariantViolation)
    );
    assert_eq!(calc_prefix_end_bound(b"ns", Some(&RawBound::Inclusive(b"k".to_vec()))), Ok(Some(b"nsl".to_vec())));
    assert_eq!(
        calc_prefix_end_bound(b"ns", Some(&RawBound::Inclusive(b"\xff".to_vec()))),
        Err(StorageError::InvariantViolation)
    );
}

fn length_prefixed(namespace: &[u8]) -> Vec<u8> {
    Prefix::new(namespace, &vec![]).as_slice().to_vec()
}

fn set_with_prefix(store: &mut Store, prefix: &[u8], key: &[u8], value: &[u8]) {
    let mut k = prefix.to_vec();
    k.extend_from_slice(key);
    store.set(&k, value);
}

#[test]
fn test_range() {
    let mut storage = Store::new();
    let prefix = length_prefixed(b"foo");
    let other_prefix = length_prefixed(b"food");

    // set some values in this range
    set_with_prefix(&mut storage, &prefix, b"bar", b"none");
    set_with_prefix(&mut storage, &prefix, b"snowy", b"day");

    // set some values outside this range
    set_with_prefix(&mut storage, &other_prefix, b"moon", b"buggy");

    // ensure we get proper result from prefixed_range iterator
    let res = range_with_prefix(&storage, &prefix, None, None, Order::Descending).unwrap();
    assert_eq!(res[0], (b"snowy".to_vec(), b"day".to_vec()));
    assert_eq!(res[1], (b"bar".to_vec(), b"none".to_vec()));
    assert_eq!(res.len(), 2);

    // ensure we get raw result from base range
    let all = storage.range(None, None, Order::Ascending);
    assert_eq!(3, all.len());

    // foo comes first
    let mut expected_key = prefix.clone();
    expected_key.extend_from_slice(b"bar");
    assert_eq!(all[0], (expected_key, b"none".to_vec()));
}

#[test]
fn test_range_with_prefix_wrapover() {
    let mut storage = Store::new();
    // if we don't properly wrap over there will be issues here (note 255+1 is used to calculate end)
    let prefix = length_prefixed(b"f\xff\xff");
    let other_prefix = length_prefixed(b"f\xff\x44");

    // set some values in this range
    set_with_prefix(&mut storage, &prefix, b"bar", b"none");
    set_with_prefix(&mut storage, &prefix, b"snowy", b"day");

    // set some values outside this range
    set_with_prefix(&mut storage, &other_prefix, b"moon", b"buggy");

    // ensure we get proper result from prefixed_range iterator
    let elements = range_with_prefix(&storage, &prefix, None, None, Order::Descending).unwrap();
    assert_eq!(
        elements,
        vec![
            (b"snowy".to_vec(), b"day".to_vec()),
            (b"bar".to_vec(), b"none".to_vec()),
        ]
    );
}

#[test]
fn test_range_with_start_end_set() {
    let mut storage = Store::new();
    // if we don't properly wrap over there will be issues here (note 255+1 is used to calculate end)
    let prefix = length_prefixed(b"f\xff\xff");
    let other_prefix = length_prefixed(b"f\xff\x44");

    // set some values in this range
    set_with_prefix(&mut storage, &prefix, b"bar", b"none");
    set_with_prefix(&mut storage, &prefix, b"snowy", b"day");

    // set some values outside this range
    set_with_prefix(&mut storage, &other_prefix, b"moon", b"buggy");

    // make sure start and end are applied properly
    let res = range_with_prefix(
        &storage,
        &prefix,
        Some(&RawBound::Inclusive(b"b".to_vec())),
        Some(&RawBound::Exclusive(b"c".to_vec())),
        Order::Ascending,
    )
    .unwrap();
    assert_eq!(res.len(), 1);
    assert_eq!(res[0], (b"bar".to_vec(), b"none".to_vec()));

    // make sure start and end are applied properly
    let res = range_with_prefix(
        &storage,
        &prefix,
        Some(&RawBound::Inclusive(b"bas".to_vec())),
        Some(&RawBound::Exclusive(b"sno".to_vec())),
        Order::Ascending,
    )
    .unwrap();
    assert_eq!(res.len(), 0);

    let res = range_with_prefix(&storage, &prefix, Some(&RawBound::Inclusive(b"ant".to_vec())), None, Order::Ascending)
        .unwrap();
    assert_eq!(res.len(), 2);
    assert_eq!(res[0], (b"bar".to_vec(), b"none".to_vec()));
    assert_eq!(res[1], (b"snowy".to_vec(), b"day".to_vec()));
}
