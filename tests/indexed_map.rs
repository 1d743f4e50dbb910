use cw_storage_plus::codec::{decode_text, encode_text, encode_u32, join_key};
use cw_storage_plus::{Index, IndexedMap, MultiIndex, Order, RawBound, StorageError, Store, UniqueIndex};

struct Data {
    name: String,
    last_name: String,
    age: u32,
}

fn encode(d: &Data) -> Vec<u8> {
    format!("{}|{}|{}", d.name, d.last_name, d.age).into_bytes()
}

fn decode(v: &[u8]) -> Data {
    let s = std::str::from_utf8(v).unwrap();
    let parts: Vec<&str> = s.split('|').collect();
    Data { name: parts[0].to_string(), last_name: parts[1].to_string(), age: parts[2].parse().unwrap() }
}

fn data(name: &str, last_name: &str, age: u32) -> Data {
    Data { name: name.to_string(), last_name: last_name.to_string(), age }
}

/// Secondary keys: name (multi), age (unique), name and last name (unique).
fn derive_keys(_pk: &[u8], v: &[u8]) -> Vec<Vec<u8>> {
    let d = decode(v);
    vec![
        encode_text(&d.name),
        encode_u32(d.age),
        join_key(&vec![encode_text(&d.name), encode_text(&d.last_name)]),
    ]
}

type DerivedKeys = fn(&[u8], &[u8]) -> Vec<Vec<u8>>;

fn name_index() -> MultiIndex {
    MultiIndex::new("data__name")
}

fn age_index() -> UniqueIndex {
    UniqueIndex::new("data__age")
}

fn data_map() -> IndexedMap<DerivedKeys> {
    IndexedMap::new(
        "data",
        vec![
            Index::Multi(name_index()),
            Index::Unique(age_index()),
            Index::Unique(UniqueIndex::new("data__name_lastname")),
        ],
        derive_keys as DerivedKeys,
    )
}

fn save_data(store: &mut Store) -> (Vec<&'static str>, Vec<Vec<u8>>) {
    let map = data_map();
    let mut pks = vec![];
    let mut datas = vec![];
    let entries = [
        ("1", data("Maria", "Doe", 42)),
        // same name (multi-index), different last name, different age => ok
        ("2", data("Maria", "Williams", 23)),
        // different name, different last name, different age => ok
        ("3", data("John", "Wayne", 32)),
        ("4", data("Maria Luisa", "Rodriguez", 12)),
        ("5", data("Marta", "After", 90)),
    ];
    for (pk, d) in entries.iter() {
        let v = encode(d);
        map.save(store, pk.as_bytes(), &v).unwrap();
        pks.push(*pk);
        datas.push(v);
    }
    (pks, datas)
}

fn name_count(store: &Store, name: &str) -> usize {
    name_index().prefix(name.as_bytes()).keys_raw(store, None, None, Order::Ascending).unwrap().len()
}

#[test]
fn store_and_load_by_index() {
    let mut store = Store::new();
    let map = data_map();

    // save data
    let (pks, datas) = save_data(&mut store);
    let pk = pks[0];
    let data = &datas[0];

    // load it properly
    let loaded = map.load(&store, pk.as_bytes()).unwrap();
    assert_eq!(*data, loaded);

    let count = name_index().prefix(b"Maria").range_raw(&store, None, None, Order::Ascending).unwrap().len();
    assert_eq!(2, count);

    // load it by secondary index
    let marias = name_index().prefix(b"Maria").range_raw(&store, None, None, Order::Ascending).unwrap();
    assert_eq!(2, marias.len());
    let (k, v) = &marias[0];
    assert_eq!(pk, decode_text(k).unwrap());
    assert_eq!(data, v);

    // other index doesn't match (1 byte after)
    assert_eq!(0, name_count(&store, "Marib"));
    // other index doesn't match (1 byte before)
    assert_eq!(0, name_count(&store, "Mari`"));
    // other index doesn't match (longer)
    assert_eq!(0, name_count(&store, "Maria5"));

    // In a MultiIndex, the index key is composed by the index and the primary key.
    // Primary key may be empty (so that to iterate over all elements that match just the index)
    let key = join_key(&vec![encode_text("Maria"), encode_text("")]);
    // Iterate using an inclusive bound over the key
    let marias = name_index()
        .no_prefix()
        .range_raw(&store, Some(&RawBound::Inclusive(key)), None, Order::Ascending)
        .unwrap();
    // gets from the first "Maria" until the end
    assert_eq!(4, marias.len());

    // This is equivalent to using prefix_range
    let marias2 = name_index()
        .prefix_range_raw(&store, Some(&RawBound::Inclusive(join_key(&vec![encode_text("Maria"), vec![]])[..7].to_vec())), None, Order::Ascending)
        .unwrap();
    assert_eq!(4, marias2.len());
    assert_eq!(marias, marias2);

    // Build key including a non-empty pk
    let key = join_key(&vec![encode_text("Maria"), encode_text("1")]);
    // Iterate using a (exclusive) bound over the key.
    // (Useful for pagination / continuation contexts).
    let count = name_index()
        .no_prefix()
        .range_raw(&store, Some(&RawBound::Exclusive(key)), None, Order::Ascending)
        .unwrap()
        .len();
    // gets from the 2nd "Maria" until the end
    assert_eq!(3, count);

    // index_key() over UniqueIndex works.
    let age_key = encode_u32(23);
    // Iterate using a (inclusive) bound over the key.
    let count = age_index()
        .no_prefix()
        .range_raw(&store, Some(&RawBound::Inclusive(age_key)), None, Order::Ascending)
        .unwrap()
        .len();
    // gets all the greater than or equal to 23 years old people
    assert_eq!(4, count);

    // match on proper age
    let aged = age_index().item(&store, &encode_u32(42)).unwrap().unwrap();
    assert_eq!(pk, decode_text(&aged.0).unwrap());
    assert_eq!(*data, aged.1);

    // no match on wrong age
    let aged = age_index().item(&store, &encode_u32(43)).unwrap();
    assert_eq!(None, aged);
}

#[test]
fn indexed_map_existence() {
    let mut store = Store::new();
    let map = data_map();
    let (pks, _) = save_data(&mut store);

    assert!(map.has(&store, pks[0].as_bytes()));
    assert!(!map.has(&store, b"6"));
}

#[test]
fn unique_index_enforced() {
    let mut store = Store::new();
    let map = data_map();

    // save data
    let (pks, datas) = save_data(&mut store);

    // different name, different last name, same age => error
    let data5 = encode(&data("Marcel", "Laurens", 42));
    let pk5 = "4";

    // enforce this returns some error
    assert_eq!(map.save(&mut store, pk5.as_bytes(), &data5), Err(StorageError::UniqueConstraintViolation));
    // the record saved before stays as it was
    assert_eq!(map.load(&store, pks[3].as_bytes()).unwrap(), datas[3]);

    // query by unique key
    // match on proper age
    let (k, v) = age_index().item(&store, &encode_u32(42)).unwrap().unwrap();
    assert_eq!(decode_text(&k).unwrap(), pks[0]);
    assert_eq!(decode(&v).name, decode(&datas[0]).name);
    assert_eq!(decode(&v).age, decode(&datas[0]).age);

    // match on other age
    let (k, v) = age_index().item(&store, &encode_u32(23)).unwrap().unwrap();
    assert_eq!(decode_text(&k).unwrap(), pks[1]);
    assert_eq!(decode(&v).name, decode(&datas[1]).name);
    assert_eq!(decode(&v).age, decode(&datas[1]).age);

    // if we delete the first one, we can add the blocked one
    map.remove(&mut store, pks[0].as_bytes()).unwrap();
    map.save(&mut store, pk5.as_bytes(), &data5).unwrap();
    // now 42 is the new owner
    let (k, v) = age_index().item(&store, &encode_u32(42)).unwrap().unwrap();
    assert_eq!(decode_text(&k).unwrap(), pk5);
    assert_eq!(decode(&v).name, "Marcel");
    assert_eq!(decode(&v).age, 42);
}

#[test]
fn unique_index_enforced_composite_key() {
    let mut store = Store::new();
    let map = data_map();

    // save data
    save_data(&mut store);

    // same name, same lastname => error
    let data5 = encode(&data("Maria", "Doe", 24));
    let pk5 = "5";
    // enforce this returns some error
    map.save(&mut store, pk5.as_bytes(), &data5).unwrap_err();
}

#[test]
fn resaving_a_record_keeps_its_own_unique_keys() {
    let mut store = Store::new();
    let map = data_map();
    save_data(&mut store);
    // same age and names as before: the entries are the record's own
    map.save(&mut store, b"1", &encode(&data("Maria", "Doe", 42))).unwrap();
    assert_eq!(name_count(&store, "Maria"), 2);
}

#[test]
fn remove_and_update_reflected_on_indexes() {
    let mut store = Store::new();
    let map = data_map();

    // save data
    let (pks, _) = save_data(&mut store);

    // find 2 Marias, 1 John, and no Mary
    assert_eq!(name_count(&store, "Maria"), 2);
    assert_eq!(name_count(&store, "John"), 1);
    assert_eq!(name_count(&store, "Maria Luisa"), 1);
    assert_eq!(name_count(&store, "Mary"), 0);

    // remove maria 2
    map.remove(&mut store, pks[1].as_bytes()).unwrap();

    // change john to mary
    map.update(&mut store, pks[2].as_bytes(), |d| -> Result<Vec<u8>, StorageError> {
        let mut x = decode(&d.unwrap());
        assert_eq!(&x.name, "John");
        x.name = "Mary".to_string();
        Ok(encode(&x))
    })
    .unwrap();

    // find 1 maria, 1 maria luisa, no john, and 1 mary
    assert_eq!(name_count(&store, "Maria"), 1);
    assert_eq!(name_count(&store, "Maria Luisa"), 1);
    assert_eq!(name_count(&store, "John"), 0);
    assert_eq!(name_count(&store, "Mary"), 1);
    // the removed record left no unique entry behind
    assert_eq!(age_index().item(&store, &encode_u32(23)).unwrap(), None);
}

#[test]
fn indexed_map_clear_works() {
    let mut storage = Store::new();
    let map = data_map();
    let (pks, _) = save_data(&mut storage);

    map.clear(&mut storage);

    for key in pks {
        assert!(!map.has(&storage, key.as_bytes()));
    }
}

#[test]
fn indexed_map_is_empty_works() {
    let mut storage = Store::new();
    let map = data_map();

    assert!(map.is_empty(&storage));

    save_data(&mut storage);

    assert!(!map.is_empty(&storage));
}

#[test]
fn index_entries_follow_records() {
    let mut store = Store::new();
    let map = data_map();
    save_data(&mut store);
    // every live record has its entries
    for (pk, name) in [("1", "Maria"), ("2", "Maria"), ("3", "John"), ("4", "Maria Luisa"), ("5", "Marta")] {
        let pks = name_index().prefix(name.as_bytes()).keys_raw(&store, None, None, Order::Ascending).unwrap();
        assert!(pks.contains(&pk.as_bytes().to_vec()));
    }
    // removing every record leaves no entry in any index
    for pk in ["1", "2", "3", "4", "5"] {
        map.remove(&mut store, pk.as_bytes()).unwrap();
    }
    assert!(name_index().no_prefix().is_empty(&store));
    assert!(age_index().no_prefix().is_empty(&store));
    assert!(UniqueIndex::new("data__name_lastname").no_prefix().is_empty(&store));
    // removing again changes nothing
    map.remove(&mut store, b"1").unwrap();
    assert!(map.is_empty(&store));
}

#[test]
fn clear_also_clears_indexes() {
    let mut store = Store::new();
    let map = data_map();
    let (pks, datas) = save_data(&mut store);
    map.clear(&mut store);
    assert!(map.is_empty(&store));
    assert!(name_index().no_prefix().is_empty(&store));
    assert!(age_index().no_prefix().is_empty(&store));
    assert_eq!(age_index().item(&store, &encode_u32(42)).unwrap(), None);
    // records can be saved again with their old unique keys
    map.save(&mut store, pks[0].as_bytes(), &datas[0]).unwrap();
    map.save(&mut store, b"9", &datas[1]).unwrap();
    assert_eq!(name_count(&store, "Maria"), 2);
}
