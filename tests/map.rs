use cw_storage_plus::codec::{decode_i32, encode_i32, encode_text, encode_u8, Atom, AtomKind};
use cw_storage_plus::{Order, StorageMap, Store};

fn people() -> StorageMap {
    StorageMap::new("people")
}

fn allowance() -> StorageMap {
    StorageMap::new("allow")
}

fn triple() -> StorageMap {
    StorageMap::new("triple")
}

fn k1(a: &[u8]) -> Vec<Vec<u8>> {
    vec![a.to_vec()]
}

fn k2(a: &[u8], b: &[u8]) -> Vec<Vec<u8>> {
    vec![a.to_vec(), b.to_vec()]
}

fn person(name: &str, age: i32) -> Vec<u8> {
    format!("{name}|{age}").into_bytes()
}

fn num(v: u64) -> Vec<u8> {
    v.to_string().into_bytes()
}

fn as_num(v: &[u8]) -> u64 {
    std::str::from_utf8(v).unwrap().parse().unwrap()
}

#[test]
fn create_path() {
    let path = people().key(&k1(b"john"));
    let key = path.as_slice();
    // this should be prefixed(people) || john
    assert_eq!("people".len() + "john".len() + 2, key.len());
    assert_eq!(b"people".to_vec().as_slice(), &key[2..8]);
    assert_eq!(b"john".to_vec().as_slice(), &key[8..]);

    let path = allowance().key(&k2(b"john", b"maria"));
    let key = path.as_slice();
    // this should be prefixed(allow) || prefixed(john) || maria
    assert_eq!("allow".len() + "john".len() + "maria".len() + 2 * 2, key.len());
    assert_eq!(b"allow".to_vec().as_slice(), &key[2..7]);
    assert_eq!(b"john".to_vec().as_slice(), &key[9..13]);
    assert_eq!(b"maria".to_vec().as_slice(), &key[13..]);

    let path = triple().key(&vec![b"john".to_vec(), encode_u8(8), encode_text("pedro")]);
    let key = path.as_slice();
    // this should be prefixed(triple) || prefixed(john) || prefixed(8u8) || pedro
    assert_eq!("triple".len() + "john".len() + 1 + "pedro".len() + 2 * 3, key.len());
    assert_eq!(b"triple".to_vec().as_slice(), &key[2..8]);
    assert_eq!(b"john".to_vec().as_slice(), &key[10..14]);
    assert_eq!(encode_u8(8).as_slice(), &key[16..17]);
    assert_eq!(b"pedro".to_vec().as_slice(), &key[17..]);
}

#[test]
fn map_save_and_load() {
    let mut store = Store::new();

    // save and load on one key
    let john = people().key(&k1(b"john"));
    let data = person("John", 32);
    assert_eq!(None, john.may_load(&store));
    john.save(&mut store, &data);
    assert_eq!(data, john.load(&store).unwrap());

    // nothing on another key
    assert_eq!(None, people().may_load(&store, &k1(b"jack")));

    // same named path gets the data
    assert_eq!(data, people().load(&store, &k1(b"john")).unwrap());

    // removing leaves us empty
    john.remove(&mut store);
    assert_eq!(None, john.may_load(&store));
}

#[test]
fn map_existence() {
    let mut store = Store::new();

    // set data in proper format
    let data = person("John", 32);
    people().save(&mut store, &k1(b"john"), &data);

    // set and remove it
    people().save(&mut store, &k1(b"removed"), &data);
    people().remove(&mut store, &k1(b"removed"));

    // invalid, but non-empty data
    store.set(people().key(&k1(b"random")).as_slice(), b"random-data");

    // any data, including invalid or empty is returned as "has"
    assert!(people().has(&store, &k1(b"john")));
    assert!(people().has(&store, &k1(b"random")));

    // if nothing was written, it is false
    assert!(!people().has(&store, &k1(b"never-writen")));
    assert!(!people().has(&store, &k1(b"removed")));
}

#[test]
fn composite_keys() {
    let mut store = Store::new();

    // save and load on a composite key
    let allow = allowance().key(&k2(b"owner", b"spender"));
    assert_eq!(None, allow.may_load(&store));
    allow.save(&mut store, &num(1234));
    assert_eq!(1234, as_num(&allow.load(&store).unwrap()));

    // not under other key
    let different = allowance().may_load(&store, &k2(b"owners", b"pender"));
    assert_eq!(None, different);

    // matches under a proper copy
    let same = allowance().load(&store, &k2(b"owner", b"spender")).unwrap();
    assert_eq!(1234, as_num(&same));
}

#[test]
fn triple_keys() {
    let mut store = Store::new();

    // save and load on a triple composite key
    let t = triple().key(&vec![b"owner".to_vec(), encode_u8(10), encode_text("recipient")]);
    assert_eq!(None, t.may_load(&store));
    t.save(&mut store, &num(1234));
    assert_eq!(1234, as_num(&t.load(&store).unwrap()));

    // not under other key
    let different = triple().may_load(&store, &vec![b"owners".to_vec(), encode_u8(10), encode_text("receiver")]);
    assert_eq!(None, different);

    // matches under a proper copy
    let same = triple()
        .load(&store, &vec![b"owner".to_vec(), encode_u8(10), encode_text("recipient")])
        .unwrap();
    assert_eq!(1234, as_num(&same));
}

#[test]
fn range_raw_simple_key() {
    let mut store = Store::new();

    // save and load on two keys
    let data = person("John", 32);
    people().save(&mut store, &k1(b"john"), &data);
    let data2 = person("Jim", 44);
    people().save(&mut store, &k1(b"jim"), &data2);

    // let's try to iterate!
    let all = people().range_raw(&store, None, None, Order::Ascending).unwrap();
    assert_eq!(2, all.len());
    assert_eq!(all, vec![(b"jim".to_vec(), data2.clone()), (b"john".to_vec(), data.clone())]);

    // let's try to iterate over a range
    let all = people()
        .range_raw(&store, Some(&cw_storage_plus::RawBound::Inclusive(b"j".to_vec())), None, Order::Ascending)
        .unwrap();
    assert_eq!(2, all.len());
    assert_eq!(all, vec![(b"jim".to_vec(), data2.clone()), (b"john".to_vec(), data.clone())]);

    // let's try to iterate over a more restrictive range
    let all = people()
        .range_raw(&store, Some(&cw_storage_plus::RawBound::Inclusive(b"jo".to_vec())), None, Order::Ascending)
        .unwrap();
    assert_eq!(1, all.len());
    assert_eq!(all, vec![(b"john".to_vec(), data)]);

    // let's try to iterate over a range
    let all = people()
        .range_raw(&store, Some(&cw_storage_plus::RawBound::Inclusive(b"jo".to_vec())), None, Order::Descending)
        .unwrap();
    assert_eq!(1, all.len());
}

#[test]
fn basic_update() {
    let mut store = Store::new();

    let add_ten = |a: Option<Vec<u8>>| -> Result<Vec<u8>, ()> { Ok(num(a.map(|v| as_num(&v)).unwrap_or_default() + 10)) };

    // save and load on three keys, one under different owner
    let key = k2(b"owner", b"spender");
    allowance().update(&mut store, &key, add_ten).unwrap();
    let twenty = allowance().update(&mut store, &key, add_ten).unwrap();
    assert_eq!(20, as_num(&twenty));
    let loaded = allowance().load(&store, &key).unwrap();
    assert_eq!(20, as_num(&loaded));
}

#[test]
fn update_failure_writes_nothing() {
    let mut store = Store::new();
    let key = k2(b"owner", b"spender");
    allowance().save(&mut store, &key, &num(5));
    let res: Result<Vec<u8>, &str> = allowance().update(&mut store, &key, |_| Err("refused"));
    assert_eq!(res, Err("refused"));
    assert_eq!(as_num(&allowance().load(&store, &key).unwrap()), 5);
}

#[test]
fn map_clear_works() {
    let test_map = StorageMap::new("test_map");

    let mut storage = Store::new();
    for (k, v) in [("key0", 0u64), ("key1", 1), ("key2", 2), ("key3", 3), ("key4", 4)] {
        test_map.save(&mut storage, &k1(k.as_bytes()), &num(v));
    }
    // an entry of another map survives
    StorageMap::new("test_map2").save(&mut storage, &k1(b"key0"), &num(9));

    test_map.clear(&mut storage);

    assert!(!test_map.has(&storage, &k1(b"key0")));
    assert!(!test_map.has(&storage, &k1(b"key1")));
    assert!(!test_map.has(&storage, &k1(b"key2")));
    assert!(!test_map.has(&storage, &k1(b"key3")));
    assert!(!test_map.has(&storage, &k1(b"key4")));
    assert!(test_map.is_empty(&storage));
    assert!(StorageMap::new("test_map2").has(&storage, &k1(b"key0")));
}

#[test]
fn map_is_empty_works() {
    let test_map = StorageMap::new("test_map");

    let mut storage = Store::new();

    assert!(test_map.is_empty(&storage));

    test_map.save(&mut storage, &k1(b"key1"), &num(1));
    test_map.save(&mut storage, &k1(b"key2"), &num(2));

    assert!(!test_map.is_empty(&storage));
}

#[test]
fn first_last_work() {
    let mut storage = Store::new();
    let map = StorageMap::new("map");

    // empty map
    assert_eq!(map.first(&storage).unwrap(), None);
    assert_eq!(map.last(&storage).unwrap(), None);

    // insert entries
    map.save(&mut storage, &k1(b"ghi"), &num(1));
    map.save(&mut storage, &k1(b"abc"), &num(2));
    map.save(&mut storage, &k1(b"def"), &num(3));

    assert_eq!(map.first(&storage).unwrap(), Some((b"abc".to_vec(), num(2))));
    assert_eq!(map.last(&storage).unwrap(), Some((b"ghi".to_vec(), num(1))));
}

#[test]
fn remove_twice_is_a_no_op() {
    let mut store = Store::new();
    people().save(&mut store, &k1(b"john"), &person("John", 32));
    people().save(&mut store, &k1(b"jim"), &person("Jim", 44));
    people().remove(&mut store, &k1(b"john"));
    let after_first = people().range_raw(&store, None, None, Order::Ascending).unwrap();
    people().remove(&mut store, &k1(b"john"));
    let after_second = people().range_raw(&store, None, None, Order::Ascending).unwrap();
    assert_eq!(after_first, after_second);
    assert!(!people().has(&store, &k1(b"john")));
}

#[test]
fn namespaces_foo_and_food_stay_apart() {
    let mut store = Store::new();
    let foo = StorageMap::new("foo");
    let food = StorageMap::new("food");
    foo.save(&mut store, &k1(b"a"), &num(1));
    food.save(&mut store, &k1(b"a"), &num(2));
    food.save(&mut store, &k1(b"dx"), &num(3));
    let scanned = foo.range_raw(&store, None, None, Order::Ascending).unwrap();
    assert_eq!(scanned, vec![(b"a".to_vec(), num(1))]);
    let scanned = food.range_raw(&store, None, None, Order::Descending).unwrap();
    assert_eq!(scanned, vec![(b"dx".to_vec(), num(3)), (b"a".to_vec(), num(2))]);
}

#[test]
fn prefixed_range_raw_by_first_atom() {
    let mut store = Store::new();
    let map = StorageMap::new("ages");
    map.save(&mut store, &k2(b"a", b"1"), &num(1));
    map.save(&mut store, &k2(b"a", b"2"), &num(2));
    map.save(&mut store, &k2(b"b", b"1"), &num(3));
    let under_a = map.prefix(&k1(b"a")).range_raw(&store, None, None, Order::Ascending).unwrap();
    assert_eq!(under_a, vec![(b"1".to_vec(), num(1)), (b"2".to_vec(), num(2))]);
    let from_b = map
        .prefix_range_raw(&store, Some(&cw_storage_plus::RawBound::Exclusive(vec![0, 1, b'a'])), None, Order::Ascending)
        .unwrap();
    assert_eq!(from_b, vec![([vec![0, 1, b'b'], b"1".to_vec()].concat(), num(3))]);
}

fn text(a: &Atom) -> String {
    match a {
        Atom::Text(s) => s.clone(),
        Atom::Bytes(_) => panic!("not text"),
    }
}

fn bytes(a: &Atom) -> Vec<u8> {
    match a {
        Atom::Bytes(b) => b.clone(),
        Atom::Text(_) => panic!("not bytes"),
    }
}

fn decoded_text_range(map: &StorageMap, store: &Store) -> Result<Vec<(String, Vec<u8>)>, cw_storage_plus::StorageError> {
    map.range(store, None, None, Order::Ascending, &vec![AtomKind::Text])?
        .into_iter()
        .map(|item| item.map(|(atoms, v)| (text(&atoms[0]), v)))
        .collect()
}

fn decoded_text_keys(map: &StorageMap, store: &Store) -> Result<Vec<String>, cw_storage_plus::StorageError> {
    map.keys(store, None, None, Order::Ascending, &vec![AtomKind::Text])?
        .into_iter()
        .map(|item| item.map(|atoms| text(&atoms[0])))
        .collect()
}

#[test]
fn range_key_broken_deserialization_errors() {
    let mut store = Store::new();
    let people_str = StorageMap::new("people2");

    // save and load on three keys
    let data = person("John", 32);
    people_str.save(&mut store, &k1(b"john"), &data);
    let data2 = person("Jim", 44);
    people_str.save(&mut store, &k1(b"jim"), &data2);
    let data3 = person("Ada", 23);
    people_str.save(&mut store, &k1(b"ada"), &data3);

    // let's iterate!
    let all = decoded_text_range(&people_str, &store).unwrap();
    assert_eq!(decoded_text_keys(&people_str, &store).unwrap(), vec!["ada", "jim", "john"]);
    assert_eq!(3, all.len());
    assert_eq!(
        all,
        vec![
            ("ada".to_string(), data3.clone()),
            ("jim".to_string(), data2.clone()),
            ("john".to_string(), data.clone())
        ]
    );

    // Manually add a broken key (invalid utf-8)
    store.set(&[[0u8, "people2".len() as u8].as_slice(), "people2".as_bytes(), b"\xddim"].concat(), &data2);

    // Let's try to iterate again!
    let all = decoded_text_range(&people_str, &store);
    assert!(all.is_err());

    // And the same with keys()
    let all = decoded_text_keys(&people_str, &store);
    assert!(all.is_err());

    // But range_raw still works
    let all = people_str.range_raw(&store, None, None, Order::Ascending).unwrap();
    assert_eq!(4, all.len());
    assert_eq!(
        all,
        vec![
            (b"ada".to_vec(), data3.clone()),
            (b"jim".to_vec(), data2.clone()),
            (b"john".to_vec(), data.clone()),
            (b"\xddim".to_vec(), data2.clone()),
        ]
    );

    // And the same with keys_raw
    let all = people_str.keys_raw(&store, None, None, Order::Ascending).unwrap();
    assert_eq!(4, all.len());
    assert_eq!(all, vec![b"ada".to_vec(), b"jim".to_vec(), b"john".to_vec(), b"\xddim".to_vec()]);
}

#[test]
fn range_simple_signed_integer_key() {
    let mut store = Store::new();
    let signed_id = StorageMap::new("signed_id");

    // save and load on three keys
    let data = person("John", 32);
    signed_id.save(&mut store, &k1(&encode_i32(-1234)), &data);
    let data2 = person("Jim", 44);
    signed_id.save(&mut store, &k1(&encode_i32(-56)), &data2);
    let data3 = person("Jules", 55);
    signed_id.save(&mut store, &k1(&encode_i32(50)), &data3);

    let typed = |items: Vec<Result<(Vec<Atom>, Vec<u8>), cw_storage_plus::StorageError>>| -> Vec<(i32, Vec<u8>)> {
        items.into_iter().map(|i| { let (a, v) = i.unwrap(); (decode_i32(&bytes(&a[0])).unwrap(), v) }).collect()
    };
    let i32_key = vec![AtomKind::Fixed(4)];

    // let's try to iterate!
    let all = typed(signed_id.range(&store, None, None, Order::Ascending, &i32_key).unwrap());
    assert_eq!(3, all.len());
    // order is correct
    assert_eq!(all, vec![(-1234, data), (-56, data2.clone()), (50, data3.clone())]);

    // let's try to iterate over a range
    let all = typed(
        signed_id
            .range(&store, Some(&cw_storage_plus::RawBound::Inclusive(encode_i32(-56))), None, Order::Ascending, &i32_key)
            .unwrap(),
    );
    assert_eq!(2, all.len());
    assert_eq!(all, vec![(-56, data2), (50, data3.clone())]);

    // let's try to iterate over a more restrictive range
    let all = typed(
        signed_id
            .range(
                &store,
                Some(&cw_storage_plus::RawBound::Inclusive(encode_i32(-55))),
                Some(&cw_storage_plus::RawBound::Inclusive(encode_i32(50))),
                Order::Descending,
                &i32_key,
            )
            .unwrap(),
    );
    assert_eq!(1, all.len());
    assert_eq!(all, vec![(50, data3)]);
}

#[test]
fn typed_range_splits_composite_keys() {
    let mut store = Store::new();
    let map = allowance();
    map.save(&mut store, &k2(b"owner", b"spender"), &num(1000));
    map.save(&mut store, &k2(b"owner", b"spender2"), &num(3000));
    map.save(&mut store, &k2(b"owner2", b"spender"), &num(5000));
    let kinds = vec![AtomKind::Bytes, AtomKind::Bytes];
    let items = map.range(&store, None, None, Order::Ascending, &kinds).unwrap();
    let items: Vec<(Vec<Vec<u8>>, u64)> =
        items.into_iter().map(|i| { let (k, v) = i.unwrap(); (k.iter().map(bytes).collect(), as_num(&v)) }).collect();
    assert_eq!(
        items,
        vec![
            (k2(b"owner", b"spender"), 1000),
            (k2(b"owner", b"spender2"), 3000),
            (k2(b"owner2", b"spender"), 5000),
        ]
    );
    // a key written out of band with a bad length header fails on its own
    store.set(&[vec![0, 5], b"allow".to_vec(), vec![0, 9, b'x']].concat(), b"7");
    let items = map.range(&store, None, None, Order::Ascending, &kinds).unwrap();
    assert_eq!(items.len(), 4);
    assert_eq!(items.iter().filter(|i| i.is_err()).count(), 1);
    assert_eq!(items[3], Err(cw_storage_plus::StorageError::Decode));
}

#[test]
fn typed_flavor_checks_widths_and_prefix_ranges() {
    let mut store = Store::new();
    let map = StorageMap::new("ids");
    map.save(&mut store, &k2(b"a", &encode_i32(1)), &num(1));
    map.save(&mut store, &k2(b"b", &encode_i32(2)), &num(2));
    map.save(&mut store, &k2(b"b", b"xy"), &num(3));
    let kinds = vec![AtomKind::Text, AtomKind::Fixed(4)];
    let keys = map.keys(&store, None, None, Order::Ascending, &kinds).unwrap();
    assert_eq!(keys.len(), 3);
    assert_eq!(keys[0], Ok(vec![Atom::Text("a".to_string()), Atom::Bytes(encode_i32(1))]));
    // the two-byte atom has the wrong width
    assert_eq!(keys.iter().filter(|k| **k == Err(cw_storage_plus::StorageError::Decode)).count(), 1);
    let from_b = map
        .prefix_range(&store, Some(&cw_storage_plus::RawBound::Inclusive(vec![0, 1, b'b'])), None, Order::Ascending, &kinds)
        .unwrap();
    assert_eq!(from_b.len(), 2);
    assert!(from_b.contains(&Ok((vec![Atom::Text("b".to_string()), Atom::Bytes(encode_i32(2))], num(2)))));
}
