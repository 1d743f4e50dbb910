use cw_storage_plus::{Item, Namespace, StorageError, Store};

fn config() -> Item {
    Item::new("config")
}

fn cfg(owner: &str, max_tokens: i32) -> Vec<u8> {
    format!("{owner}|{max_tokens}").into_bytes()
}

fn max_tokens(v: &[u8]) -> i32 {
    let s = std::str::from_utf8(v).unwrap();
    s.split('|').nth(1).unwrap().parse().unwrap()
}

fn with_max_tokens(v: &[u8], m: i32) -> Vec<u8> {
    let s = std::str::from_utf8(v).unwrap();
    cfg(s.split('|').next().unwrap(), m)
}

#[test]
fn item_save_and_load() {
    let mut store = Store::new();

    assert!(config().load(&store).is_err());
    assert_eq!(config().may_load(&store), None);

    let c = cfg("admin", 1234);
    config().save(&mut store, &c);

    assert_eq!(c, config().load(&store).unwrap());
}

#[test]
fn owned_key_works() {
    let mut store = Store::new();

    for i in 0..3 {
        let key = format!("key{}", i);
        let item = Item::new_dyn(Namespace::from_string(key));
        item.save(&mut store, i.to_string().as_bytes());
    }

    assert_eq!(store.get(b"key0").unwrap(), b"0");
    assert_eq!(store.get(b"key1").unwrap(), b"1");
    assert_eq!(store.get(b"key2").unwrap(), b"2");
}

#[test]
fn exists_works() {
    let mut store = Store::new();

    assert!(!config().has(&store));

    config().save(&mut store, &cfg("admin", 1234));

    assert!(config().has(&store));

    let optional = Item::new("optional");

    assert!(!optional.has(&store));

    optional.save(&mut store, b"null");

    assert!(optional.has(&store));
}

#[test]
fn remove_works() {
    let mut store = Store::new();

    // store data
    let c = cfg("admin", 1234);
    config().save(&mut store, &c);
    assert_eq!(c, config().load(&store).unwrap());

    // remove it and loads None
    config().remove(&mut store);
    assert!(!config().has(&store));

    // safe to remove 2 times
    config().remove(&mut store);
    assert!(!config().has(&store));
}

#[test]
fn isolated_reads() {
    let mut store = Store::new();

    let c = cfg("admin", 1234);
    config().save(&mut store, &c);

    let reader = Item::new("config");
    assert_eq!(c, reader.load(&store).unwrap());

    let other_reader = Item::new("config2");
    assert_eq!(other_reader.may_load(&store), None);
}

#[test]
fn update_success() {
    let mut store = Store::new();

    config().save(&mut store, &cfg("admin", 1234));

    let output = config().update(&mut store, |c| -> Result<Vec<u8>, StorageError> {
        let m = max_tokens(&c);
        Ok(with_max_tokens(&c, m * 2))
    });
    let expected = cfg("admin", 2468);
    assert_eq!(output.unwrap(), expected);
    assert_eq!(config().load(&store).unwrap(), expected);
}

#[test]
fn update_can_change_variable_from_outer_scope() {
    let mut store = Store::new();
    config().save(&mut store, &cfg("admin", 1234));

    let mut old_max_tokens = 0i32;
    config()
        .update(&mut store, |c| -> Result<Vec<u8>, StorageError> {
            old_max_tokens = max_tokens(&c);
            Ok(with_max_tokens(&c, old_max_tokens * 2))
        })
        .unwrap();
    assert_eq!(old_max_tokens, 1234);
}

#[test]
fn update_does_not_change_data_on_error() {
    let mut store = Store::new();

    let c = cfg("admin", 1234);
    config().save(&mut store, &c);

    let output = config().update(&mut store, |_c| Err(StorageError::InvariantViolation));
    assert_eq!(output, Err(StorageError::InvariantViolation));
    assert_eq!(config().load(&store).unwrap(), c);
}

#[test]
fn update_of_absent_item_is_not_found() {
    let mut store = Store::new();
    let output = config().update(&mut store, |c| -> Result<Vec<u8>, StorageError> { Ok(c) });
    assert_eq!(output, Err(StorageError::NotFound));
    assert_eq!(config().may_load(&store), None);
}

#[test]
fn item_readme_works() {
    let mut store = Store::new();

    // may_load returns Option<T>, so None if data is missing
    // load returns T and Err(NotFound) if data is missing
    let empty = config().may_load(&store);
    assert_eq!(None, empty);
    let c = cfg("admin", 1234);
    config().save(&mut store, &c);
    let loaded = config().load(&store).unwrap();
    assert_eq!(c, loaded);

    // update an item with a closure (includes read and write)
    // returns the newly saved value
    let output = config()
        .update(&mut store, |c| -> Result<Vec<u8>, StorageError> {
            let m = max_tokens(&c);
            Ok(with_max_tokens(&c, m * 2))
        })
        .unwrap();
    assert_eq!(2468, max_tokens(&output));

    // you can error in an update and nothing is saved
    let failed = config().update(&mut store, |_| -> Result<Vec<u8>, StorageError> { Err(StorageError::Decode) });
    assert!(failed.is_err());

    // loading data will show the first update was saved
    let loaded = config().load(&store).unwrap();
    let expected = cfg("admin", 2468);
    assert_eq!(expected, loaded);

    // we can remove data as well
    config().remove(&mut store);
    let empty = config().may_load(&store);
    assert_eq!(None, empty);
}

#[derive(Debug)]
enum MyError {
    Std(StorageError),
    Foo,
}

impl From<StorageError> for MyError {
    fn from(original: StorageError) -> MyError {
        MyError::Std(original)
    }
}

#[test]
fn update_supports_custom_errors() {
    let mut store = Store::new();

    let c = cfg("admin", 1234);
    config().save(&mut store, &c);

    let res = config().update(&mut store, |c| {
        let m = max_tokens(&c);
        if m > 5000 {
            return Err(MyError::Foo);
        }
        if m > 20 {
            return Err(StorageError::Decode.into()); // Uses Into to convert StorageError to MyError
        }
        Ok(with_max_tokens(&c, m + 20))
    });
    match res.unwrap_err() {
        MyError::Std(StorageError::Decode) => {}
        err => panic!("Unexpected error: {:?}", err),
    }
    assert_eq!(config().load(&store).unwrap(), c);
}
