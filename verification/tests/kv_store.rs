use cpen431::application::{Command, ErrorCode, Request, Response};
use cpen431::kv_store::{
    handle_request, hash_key, same_bytes, KVStore, Key, Outcome, Value, HARD_LIMIT, MAX_KEY_LEN,
    MAX_VALUE_LEN, SOFT_LIMIT,
};

fn reply(outcome: Outcome) -> Response {
    match outcome {
        Outcome::Reply(response) => response,
        Outcome::Shutdown => panic!("the request ended the process"),
    }
}

fn put_request(key: Vec<u8>, value: Vec<u8>, version: Option<i32>) -> Request {
    Request { command: Command::Put, key: Some(key), value: Some(value), version }
}

fn key_request(command: Command, key: Vec<u8>) -> Request {
    Request { command, key: Some(key), value: None, version: None }
}

fn bare_request(command: Command) -> Request {
    Request { command, key: None, value: None, version: None }
}

#[test]
fn limits() {
    assert_eq!(MAX_KEY_LEN, 32);
    assert_eq!(MAX_VALUE_LEN, 10_000);
    assert_eq!(SOFT_LIMIT, 60 * 1024 * 1024);
    assert_eq!(HARD_LIMIT, 67 * 1024 * 1024);
}

#[test]
fn key_and_value() {
    let key = Key::new(vec![1, 2]);
    assert_eq!(key.key, vec![1, 2]);
    assert_eq!(key, Key { key: vec![1, 2] });
    let value = Value::new(vec![3], Some(9));
    assert_eq!(value.value(), &[3]);
    assert_eq!(value.version(), 9);
    let value = Value::new(vec![4, 5], None);
    assert_eq!(value.value(), &[4, 5]);
    assert_eq!(value.version(), 0);
    assert_eq!(value.clone(), Value { value: vec![4, 5], version: 0 });
}

#[test]
fn same_bytes_compares_contents() {
    assert!(same_bytes(&[], &[]));
    assert!(same_bytes(&[1, 2, 3], &[1, 2, 3]));
    assert!(!same_bytes(&[1, 2, 3], &[1, 2, 4]));
    assert!(!same_bytes(&[1, 2], &[1, 2, 3]));
    assert!(!same_bytes(&[0], &[]));
}

#[test]
fn put_get_remove() {
    let mut store = KVStore::new();
    assert_eq!(store.len(), 0);
    assert_eq!(store.approximate_size(), 0);
    assert!(matches!(store.get(&[1]), Err(ErrorCode::NonExistentKey)));

    assert_eq!(store.put(vec![1], vec![10, 11], Some(5)), Ok(()));
    assert_eq!(store.put(vec![2], vec![20], None), Ok(()));
    assert_eq!(store.len(), 2);
    let found = store.get(&[1]).unwrap();
    assert_eq!((found.value(), found.version()), (&[10u8, 11][..], 5));
    let found = store.get(&[2]).unwrap();
    assert_eq!((found.value(), found.version()), (&[20u8][..], 0));

    assert_eq!(store.remove(&[1]), Ok(()));
    assert_eq!(store.remove(&[1]), Err(ErrorCode::NonExistentKey));
    assert!(matches!(store.get(&[1]), Err(ErrorCode::NonExistentKey)));
    assert!(store.get(&[2]).is_ok());
    assert_eq!(store.len(), 1);
}

#[test]
fn put_overwrites_value_and_version() {
    let mut store = KVStore::new();
    assert_eq!(store.put(vec![7], vec![1, 1, 1], Some(3)), Ok(()));
    assert_eq!(store.put(vec![7], vec![2], None), Ok(()));
    let found = store.get(&[7]).unwrap();
    assert_eq!((found.value(), found.version()), (&[2u8][..], 0));
    assert_eq!(store.len(), 1);
    assert_eq!(store.approximate_size(), 2);
}

#[test]
fn size_follows_the_entries() {
    let mut store = KVStore::new();
    assert_eq!(store.put(vec![1, 2, 3], vec![0; 100], None), Ok(()));
    assert_eq!(store.approximate_size(), 103);
    assert_eq!(store.put(vec![4], vec![0; 10], None), Ok(()));
    assert_eq!(store.approximate_size(), 114);
    // Overwriting takes the old value off and puts the new one on.
    assert_eq!(store.put(vec![1, 2, 3], vec![0; 40], None), Ok(()));
    assert_eq!(store.approximate_size(), 54);
    assert_eq!(store.remove(&[4]), Ok(()));
    assert_eq!(store.approximate_size(), 43);
    // A removal that fails changes nothing.
    assert_eq!(store.remove(&[4]), Err(ErrorCode::NonExistentKey));
    assert_eq!(store.approximate_size(), 43);
    store.clear();
    assert_eq!(store.approximate_size(), 0);
    assert_eq!(store.len(), 0);
    assert!(matches!(store.get(&[1, 2, 3]), Err(ErrorCode::NonExistentKey)));
}

#[test]
fn admission_of_keys_and_values() {
    let mut store = KVStore::new();
    assert_eq!(store.put(vec![0; 32], vec![0; 10_000], None), Ok(()));
    assert_eq!(store.put(vec![0; 33], vec![0], None), Err(ErrorCode::InvalidKey));
    assert_eq!(store.put(vec![1], vec![0; 10_001], None), Err(ErrorCode::InvalidValue));
    // The key is looked at first.
    assert_eq!(store.put(vec![0; 33], vec![0; 10_001], None), Err(ErrorCode::InvalidKey));
    // An empty key and an empty value are admitted.
    assert_eq!(store.put(Vec::new(), Vec::new(), None), Ok(()));
    assert_eq!(store.len(), 2);
    assert_eq!(store.approximate_size(), 10_032);
}

#[test]
fn out_of_space_above_the_soft_limit() {
    let mut store = KVStore::new();
    let mut n: u32 = 0;
    // Each entry counts for 10 004 bytes; the store admits while it holds no
    // more than the soft limit.
    while store.approximate_size() <= SOFT_LIMIT {
        assert_eq!(store.put(n.to_be_bytes().to_vec(), vec![0; 10_000], None), Ok(()));
        n += 1;
    }
    assert_eq!(n as usize, SOFT_LIMIT / 10_004 + 1);
    assert_eq!(store.approximate_size(), n as usize * 10_004);
    assert!(store.approximate_size() <= HARD_LIMIT);
    assert_eq!(
        store.put(n.to_be_bytes().to_vec(), vec![0], None),
        Err(ErrorCode::OutOfSpace)
    );
    // Not even an entry that is already there is overwritten.
    assert_eq!(
        store.put(0u32.to_be_bytes().to_vec(), vec![0], None),
        Err(ErrorCode::OutOfSpace)
    );
    // The limits on key and value are looked at first.
    assert_eq!(store.put(vec![0; 33], vec![0], None), Err(ErrorCode::InvalidKey));
    assert_eq!(store.put(vec![0], vec![0; 10_001], None), Err(ErrorCode::InvalidValue));
    // Removing makes room again.
    assert_eq!(store.remove(&0u32.to_be_bytes()), Ok(()));
    assert_eq!(store.put(n.to_be_bytes().to_vec(), vec![0], None), Ok(()));
}

#[test]
fn dispatch_is_alive() {
    let mut store = KVStore::new();
    let r = reply(handle_request(&mut store, bare_request(Command::IsAlive), 1));
    assert_eq!(r.err_code, 0);
    assert!(r.value.is_none() && r.pid.is_none() && r.version.is_none());
}

#[test]
fn dispatch_put_then_get() {
    let mut store = KVStore::new();
    let r = reply(handle_request(
        &mut store,
        put_request(vec![0x61, 0x62], vec![1, 2, 3], Some(7)),
        1,
    ));
    assert_eq!(r.err_code, 0);
    assert!(r.value.is_none() && r.version.is_none());
    let r = reply(handle_request(&mut store, key_request(Command::Get, vec![0x61, 0x62]), 1));
    assert_eq!(r.err_code, 0);
    assert_eq!(r.value, Some(vec![1, 2, 3]));
    assert_eq!(r.version, Some(7));
    assert!(r.pid.is_none() && r.overload_wait_time.is_none() && r.membership_count.is_none());
}

#[test]
fn dispatch_errors() {
    let mut store = KVStore::new();
    let r = reply(handle_request(&mut store, key_request(Command::Get, vec![0xff]), 1));
    assert_eq!(r.err_code, 0x01);
    assert!(r.value.is_none());
    let r = reply(handle_request(&mut store, key_request(Command::Remove, vec![0xff]), 1));
    assert_eq!(r.err_code, 0x01);
    let r = reply(handle_request(&mut store, put_request(vec![0; 33], vec![0], None), 1));
    assert_eq!(r.err_code, 0x06);
    let r = reply(handle_request(&mut store, put_request(vec![0], vec![0; 10_001], None), 1));
    assert_eq!(r.err_code, 0x07);
    assert_eq!(store.len(), 0);
}

#[test]
fn dispatch_missing_fields_are_unrecognized() {
    let mut store = KVStore::new();
    let requests = [
        bare_request(Command::Put),
        Request { command: Command::Put, key: Some(vec![1]), value: None, version: Some(1) },
        Request { command: Command::Put, key: None, value: Some(vec![1]), version: None },
        bare_request(Command::Get),
        bare_request(Command::Remove),
    ];
    for request in requests {
        let r = reply(handle_request(&mut store, request, 1));
        assert_eq!(r.err_code, 0x05);
    }
    assert_eq!(store.len(), 0);
}

#[test]
fn dispatch_remove_and_wipeout() {
    let mut store = KVStore::new();
    reply(handle_request(&mut store, put_request(vec![1], vec![1], None), 1));
    reply(handle_request(&mut store, put_request(vec![2], vec![2], None), 1));
    let r = reply(handle_request(&mut store, key_request(Command::Remove, vec![1]), 1));
    assert_eq!(r.err_code, 0);
    assert_eq!(store.len(), 1);
    let r = reply(handle_request(&mut store, bare_request(Command::Wipeout), 1));
    assert_eq!(r.err_code, 0);
    assert_eq!(store.len(), 0);
    assert_eq!(store.approximate_size(), 0);
    let r = reply(handle_request(&mut store, key_request(Command::Get, vec![2]), 1));
    assert_eq!(r.err_code, 0x01);
}

#[test]
fn dispatch_process_and_membership() {
    let mut store = KVStore::new();
    let r = reply(handle_request(&mut store, bare_request(Command::GetPID), 4242));
    assert_eq!((r.err_code, r.pid), (0, Some(4242)));
    assert!(r.value.is_none() && r.membership_count.is_none());
    let r = reply(handle_request(&mut store, bare_request(Command::GetMembershipCount), 1));
    assert_eq!((r.err_code, r.membership_count), (0, Some(1)));
    assert!(r.pid.is_none());
    let r = reply(handle_request(&mut store, bare_request(Command::GetMembershipList), 1));
    assert_eq!(r.err_code, 0);
    assert!(r.value.is_none() && r.pid.is_none() && r.membership_count.is_none());
}

#[test]
fn dispatch_shutdown() {
    let mut store = KVStore::new();
    reply(handle_request(&mut store, put_request(vec![1], vec![1], None), 1));
    assert!(matches!(
        handle_request(&mut store, bare_request(Command::Shutdown), 1),
        Outcome::Shutdown
    ));
    assert_eq!(store.len(), 1);
}

#[test]
fn test_kvstore() {
    let mut kvstore = KVStore::new();
    for i in 0..10 {
        let request = Request {
            command: Command::Put,
            key: Some(vec![0]),
            value: Some(vec![i as u8]),
            version: None,
        };
        let response = reply(handle_request(&mut kvstore, request, 1));
        assert_eq!(response.err_code, 0);
        println!("{:?}", response);
    }
    assert_eq!(kvstore.len(), 1);
    assert_eq!(kvstore.get(&[0]).unwrap().value(), &[9]);
}

#[test]
fn key_hash_values() {
    assert_eq!(hash_key(&[]), 0);
    assert_eq!(hash_key(&[0]), 1);
    assert_eq!(hash_key(&[1]), 2);
    assert_eq!(hash_key(&[255]), 256);
    assert_eq!(hash_key(&[1, 2]), 2 * 257 + 3);
    assert_eq!(hash_key(&[0, 0]), 258);
    // Nine bytes of 255 pass the modulus: 256 * (257^9 - 1) / 256 = 257^9 - 1.
    let wide = 257u128.pow(9) - 1;
    assert_eq!(hash_key(&[255; 9]) as u128, wide % 2_305_843_009_213_693_951);
    assert!(hash_key(&[255; 32]) < 2_305_843_009_213_693_951);
    assert_ne!(hash_key(&[0]), hash_key(&[0, 0]));
}

#[test]
fn store_with_many_keys() {
    let mut store = KVStore::new();
    let n: u32 = 20_000;
    for i in 0..n {
        let key = i.to_le_bytes().to_vec();
        assert_eq!(store.put(key, vec![(i % 251) as u8; (i % 7) as usize], Some(i as i32)), Ok(()));
    }
    assert_eq!(store.len(), n as usize);
    let mut expected: usize = 0;
    for i in 0..n {
        expected += 4 + (i % 7) as usize;
        let found = store.get(&i.to_le_bytes()).unwrap();
        assert_eq!(found.version(), i as i32);
        assert_eq!(found.value(), &vec![(i % 251) as u8; (i % 7) as usize][..]);
    }
    assert_eq!(store.approximate_size(), expected);
    for i in (0..n).step_by(2) {
        assert_eq!(store.remove(&i.to_le_bytes()), Ok(()));
    }
    assert_eq!(store.len(), (n / 2) as usize);
    for i in 0..n {
        assert_eq!(store.get(&i.to_le_bytes()).is_ok(), i % 2 == 1);
    }
    // Keys that differ only in length are different keys.
    assert_eq!(store.put(vec![1, 0, 0, 0, 0], vec![9], None), Ok(()));
    assert_eq!(store.get(&[1, 0, 0, 0]).unwrap().version(), 1);
    assert_eq!(store.get(&[1, 0, 0, 0, 0]).unwrap().value(), &[9]);
    assert!(store.get(&[1, 0, 0]).is_err());
}
