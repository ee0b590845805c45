use parallel_executor::types::{MVDataError, MVDataOutput, StorageVersion};
use parallel_executor::versioned_data::{StoreError, VersionedData};

fn key(b: u8) -> Vec<u8> {
    vec![b]
}

fn versioned(r: Result<MVDataOutput, MVDataError>) -> (Result<(u32, u32), StorageVersion>, Vec<u8>) {
    match r {
        Ok(MVDataOutput::Versioned(v, data)) => (v, data),
        Err(e) => panic!("expected a value, got {:?}", e),
    }
}

#[test]
fn fetch_without_entries_is_uninitialized() {
    let d = VersionedData::new();
    assert!(matches!(d.fetch_data(&key(1), 3), Err(MVDataError::Uninitialized)));
}

#[test]
fn fetch_sees_nearest_lower_write() {
    let mut d = VersionedData::new();
    d.write(key(1), 0, 0, vec![10]).unwrap();
    d.write(key(1), 2, 0, vec![12]).unwrap();
    d.write(key(1), 5, 1, vec![15]).unwrap();
    assert!(matches!(d.fetch_data(&key(1), 0), Err(MVDataError::Uninitialized)));
    assert_eq!(versioned(d.fetch_data(&key(1), 1)), (Ok((0, 0)), vec![10]));
    assert_eq!(versioned(d.fetch_data(&key(1), 2)), (Ok((0, 0)), vec![10]));
    assert_eq!(versioned(d.fetch_data(&key(1), 3)), (Ok((2, 0)), vec![12]));
    assert_eq!(versioned(d.fetch_data(&key(1), 9)), (Ok((5, 1)), vec![15]));
    assert!(matches!(d.fetch_data(&key(2), 9), Err(MVDataError::Uninitialized)));
}

#[test]
fn write_requires_higher_incarnation() {
    let mut d = VersionedData::new();
    assert_eq!(d.write(key(1), 1, 2, vec![1]), Ok(()));
    assert_eq!(d.write(key(1), 1, 2, vec![2]), Err(StoreError::StaleIncarnation));
    assert_eq!(d.write(key(1), 1, 1, vec![2]), Err(StoreError::StaleIncarnation));
    assert_eq!(versioned(d.fetch_data(&key(1), 2)), (Ok((1, 2)), vec![1]));
    assert_eq!(d.write(key(1), 1, 3, vec![3]), Ok(()));
    assert_eq!(versioned(d.fetch_data(&key(1), 2)), (Ok((1, 3)), vec![3]));
}

#[test]
fn successive_writes_increase_incarnation() {
    let mut d = VersionedData::new();
    let mut accepted = Vec::new();
    for inc in [0u32, 0, 1, 1, 3, 2, 4] {
        if d.write(key(7), 4, inc, vec![inc as u8]).is_ok() {
            accepted.push(inc);
        }
    }
    assert_eq!(accepted, vec![0, 1, 3, 4]);
    assert_eq!(d.mark_estimate(&key(7), 4), Ok(()));
    assert_eq!(d.write(key(7), 4, 4, vec![9]), Err(StoreError::StaleIncarnation));
    assert_eq!(d.write(key(7), 4, 5, vec![9]), Ok(()));
}

#[test]
fn mark_estimate_yields_dependency() {
    let mut d = VersionedData::new();
    d.provide_base_value(key(1), vec![0]).unwrap();
    d.write(key(1), 1, 0, vec![1]).unwrap();
    assert_eq!(d.mark_estimate(&key(1), 1), Ok(()));
    assert!(matches!(d.fetch_data(&key(1), 2), Err(MVDataError::Dependency(1))));
    assert!(matches!(d.fetch_data(&key(1), 7), Err(MVDataError::Dependency(1))));
    assert_eq!(versioned(d.fetch_data(&key(1), 1)), (Err(StorageVersion), vec![0]));
}

#[test]
fn mark_estimate_and_delete_need_an_entry() {
    let mut d = VersionedData::new();
    assert_eq!(d.mark_estimate(&key(1), 0), Err(StoreError::MissingEntry));
    assert_eq!(d.delete(&key(1), 0), Err(StoreError::MissingEntry));
    d.write(key(1), 0, 0, vec![1]).unwrap();
    assert_eq!(d.mark_estimate(&key(1), 1), Err(StoreError::MissingEntry));
    assert_eq!(d.delete(&key(1), 1), Err(StoreError::MissingEntry));
    assert_eq!(d.delete(&key(1), 0), Ok(()));
    assert!(matches!(d.fetch_data(&key(1), 3), Err(MVDataError::Uninitialized)));
    assert_eq!(d.delete(&key(1), 0), Err(StoreError::MissingEntry));
}

#[test]
fn provide_base_value_keeps_first_value() {
    let mut d = VersionedData::new();
    assert_eq!(d.provide_base_value(key(1), vec![1, 2]), Ok(()));
    assert_eq!(d.provide_base_value(key(1), vec![3, 4]), Ok(()));
    assert_eq!(d.provide_base_value(key(1), vec![3]), Err(StoreError::BaseValueMismatch));
    assert_eq!(versioned(d.fetch_data(&key(1), 0)), (Err(StorageVersion), vec![1, 2]));
}

#[test]
fn base_value_is_read_by_every_transaction() {
    let mut d = VersionedData::new();
    d.provide_base_value(key(4), vec![42, 43]).unwrap();
    for idx in [0u32, 1, 2, 17, 1000, u32::MAX] {
        assert_eq!(versioned(d.fetch_data(&key(4), idx)), (Err(StorageVersion), vec![42, 43]));
    }
}

#[test]
fn estimate_then_rewrite_releases_readers() {
    let mut d = VersionedData::new();
    d.provide_base_value(key(1), vec![0]).unwrap();
    d.write(key(1), 1, 0, vec![1]).unwrap();
    d.mark_estimate(&key(1), 1).unwrap();
    assert!(matches!(d.fetch_data(&key(1), 3), Err(MVDataError::Dependency(1))));
    d.write(key(1), 1, 1, vec![2]).unwrap();
    assert_eq!(versioned(d.fetch_data(&key(1), 3)), (Ok((1, 1)), vec![2]));
}

#[test]
fn apply_write_set_writes_and_removes() {
    let mut d = VersionedData::new();
    let first = vec![(key(1), vec![1]), (key(2), vec![2])];
    assert_eq!(d.apply_write_set(3, 0, &Vec::new(), &first), Ok(true));
    let prev = vec![key(1), key(2)];
    let second = vec![(key(2), vec![22])];
    assert_eq!(d.apply_write_set(3, 1, &prev, &second), Ok(false));
    assert!(matches!(d.fetch_data(&key(1), 4), Err(MVDataError::Uninitialized)));
    assert_eq!(versioned(d.fetch_data(&key(2), 4)), (Ok((3, 1)), vec![22]));
    let third = vec![(key(2), vec![23]), (key(5), vec![5])];
    assert_eq!(d.apply_write_set(3, 2, &vec![key(2)], &third), Ok(true));
    assert_eq!(d.apply_write_set(3, 2, &vec![key(2), key(5)], &third), Err(StoreError::StaleIncarnation));
}

#[test]
fn mark_estimates_flags_each_key() {
    let mut d = VersionedData::new();
    d.write(key(1), 2, 0, vec![1]).unwrap();
    d.write(key(2), 2, 0, vec![2]).unwrap();
    assert_eq!(d.mark_estimates(&vec![key(1), key(2)], 2), Ok(()));
    assert!(matches!(d.fetch_data(&key(1), 3), Err(MVDataError::Dependency(2))));
    assert!(matches!(d.fetch_data(&key(2), 3), Err(MVDataError::Dependency(2))));
    assert_eq!(d.mark_estimates(&vec![key(3)], 2), Err(StoreError::MissingEntry));
}

#[test]
fn dependency_names_a_lower_transaction() {
    let mut d = VersionedData::new();
    d.write(key(1), 3, 0, vec![1]).unwrap();
    d.mark_estimate(&key(1), 3).unwrap();
    assert!(matches!(d.fetch_data(&key(1), 3), Err(MVDataError::Uninitialized)));
    assert!(matches!(d.fetch_data(&key(1), 4), Err(MVDataError::Dependency(3))));
}
