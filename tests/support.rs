use block_validator::keyed_counter::KeyedCounter;
use block_validator::store::{Codec, MemoryTransaction, Store, StoreError};
use block_validator::types::DeployHash;

#[test]
fn keyed_counter_counts_and_forgets() {
    let mut c = KeyedCounter::new();
    let a = DeployHash([1; 32]);
    let b = DeployHash([2; 32]);
    assert_eq!(c.inc(&a), 1);
    assert_eq!(c.inc(&a), 2);
    assert_eq!(c.inc(&b), 1);
    assert_eq!(c.dec(&a), 1);
    assert_eq!(c.get(&b), 1);
    assert_eq!(c.dec(&a), 0);
    assert_eq!(c.get(&a), 0);
    assert_eq!(c.inc(&a), 1);
}

#[test]
fn u64_codec_is_little_endian() {
    assert_eq!(0x0102u64.encode(), Ok(vec![2, 1, 0, 0, 0, 0, 0, 0]));
    assert_eq!(u64::decode(&[2, 1, 0, 0, 0, 0, 0, 0]), Ok(0x0102));
    assert_eq!(u64::decode(&[1, 2, 3]), Err(StoreError::EarlyEndOfStream));
    assert_eq!(u64::decode(&[0; 9]), Err(StoreError::LeftOverBytes));
}

#[test]
fn codec_round_trip() {
    for v in [0u64, 1, 255, 256, u64::MAX, 0xdead_beef_0123_4567] {
        let bytes = v.encode().unwrap();
        assert_eq!(u64::decode(&bytes), Ok(v));
    }
}

#[test]
fn put_then_get_in_same_transaction() {
    let store = Store { handle: 3 };
    let other = Store { handle: 4 };
    let mut txn = MemoryTransaction::new();
    assert_eq!(store.get::<u64, u64, _>(&txn, &5), Ok(None));
    assert_eq!(store.put(&mut txn, &5u64, &77u64), Ok(()));
    assert_eq!(store.get::<u64, u64, _>(&txn, &5), Ok(Some(77)));
    assert_eq!(other.get::<u64, u64, _>(&txn, &5), Ok(None));
    assert_eq!(store.put(&mut txn, &5u64, &78u64), Ok(()));
    assert_eq!(store.get::<u64, u64, _>(&txn, &5), Ok(Some(78)));
}

#[test]
fn raw_put_and_get() {
    let store = Store { handle: 1 };
    let mut txn = MemoryTransaction::new();
    assert_eq!(store.put_raw(&mut txn, b"key", &[1, 2, 3]), Ok(()));
    assert_eq!(store.get_raw(&txn, b"key"), Ok(Some(vec![1, 2, 3])));
    assert_eq!(store.get_raw(&txn, b"other"), Ok(None));
    assert_eq!(store.put_raw(&mut txn, b"bad", &[1, 2, 3]), Ok(()));
    assert_eq!(
        store.get::<u64, u64, _>(&txn, &0),
        Ok(None)
    );
}

#[test]
fn get_of_undecodable_bytes_fails() {
    let store = Store { handle: 1 };
    let mut txn = MemoryTransaction::new();
    let key = 9u64.encode().unwrap();
    assert_eq!(store.put_raw(&mut txn, &key, &[1, 2, 3]), Ok(()));
    assert_eq!(store.get::<u64, u64, _>(&txn, &9), Err(StoreError::EarlyEndOfStream));
}

#[test]
fn bulk_put_and_get() {
    let store = Store { handle: 2 };
    let mut txn = MemoryTransaction::new();
    assert_eq!(store.put_many(&mut txn, &vec![(1u64, 10u64), (2, 20), (1, 11)]), Ok(()));
    assert_eq!(
        store.get_many::<u64, u64, _>(&txn, &vec![1, 2, 3]),
        Ok(vec![Some(11), Some(20), None])
    );
}

#[test]
fn bulk_get_stops_at_the_first_error() {
    let store = Store { handle: 2 };
    let mut txn = MemoryTransaction::new();
    assert_eq!(store.put(&mut txn, &1u64, &10u64), Ok(()));
    let key = 2u64.encode().unwrap();
    assert_eq!(store.put_raw(&mut txn, &key, &[0; 12]), Ok(()));
    assert_eq!(
        store.get_many::<u64, u64, _>(&txn, &vec![1, 2, 3]),
        Err(StoreError::LeftOverBytes)
    );
}
