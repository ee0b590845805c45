use parallel_executor::captured_reads::{CaptureError, CapturedReads, DataRead, DataReadComparison, ReadKind};
use parallel_executor::types::StorageVersion;
use parallel_executor::versioned_data::VersionedData;

fn key(b: u8) -> Vec<u8> {
    vec![b]
}

#[test]
fn data_read_kinds_and_downcast() {
    let v = DataRead::Versioned(Ok((1, 0)), vec![5]);
    let e = DataRead::Exists(false);
    assert_eq!(v.get_kind(), ReadKind::Value);
    assert_eq!(e.get_kind(), ReadKind::Exists);
    assert!(matches!(v.downcast(ReadKind::Exists), Some(DataRead::Exists(true))));
    assert!(matches!(v.downcast(ReadKind::Value), Some(DataRead::Versioned(Ok((1, 0)), ref d)) if d == &vec![5]));
    assert!(e.downcast(ReadKind::Value).is_none());
    assert!(matches!(e.downcast(ReadKind::Exists), Some(DataRead::Exists(false))));
}

#[test]
fn data_read_contains() {
    let v = DataRead::Versioned(Ok((1, 0)), vec![5]);
    let same_version = DataRead::Versioned(Ok((1, 0)), vec![6]);
    let other_version = DataRead::Versioned(Ok((1, 1)), vec![5]);
    assert_eq!(v.contains(&same_version), DataReadComparison::Contains);
    assert_eq!(v.contains(&other_version), DataReadComparison::Inconsistent);
    assert_eq!(v.contains(&DataRead::Exists(true)), DataReadComparison::Contains);
    assert_eq!(v.contains(&DataRead::Exists(false)), DataReadComparison::Inconsistent);
    assert_eq!(DataRead::Exists(true).contains(&v), DataReadComparison::Insufficient);
    let base = DataRead::Versioned(Err(StorageVersion), vec![]);
    assert_eq!(base.contains(&DataRead::Versioned(Err(StorageVersion), vec![1])), DataReadComparison::Contains);
}

#[test]
fn capture_upgrades_consistent_read() {
    let mut c = CapturedReads::new();
    assert_eq!(c.capture_read(key(1), DataRead::Exists(true)), Ok(()));
    assert_eq!(c.capture_read(key(1), DataRead::Versioned(Ok((0, 0)), vec![1])), Ok(()));
    assert!(matches!(c.get_by_kind(&key(1), ReadKind::Value), Some(DataRead::Versioned(Ok((0, 0)), _))));
    assert!(matches!(c.get_by_kind(&key(1), ReadKind::Exists), Some(DataRead::Exists(true))));
    assert!(c.get_by_kind(&key(2), ReadKind::Exists).is_none());
    assert!(!c.is_speculative_failure());
    assert!(!c.is_incorrect_use());
}

#[test]
fn capture_of_no_richer_read_is_incorrect_use() {
    let mut c = CapturedReads::new();
    c.capture_read(key(1), DataRead::Versioned(Ok((0, 0)), vec![1])).unwrap();
    assert_eq!(c.capture_read(key(1), DataRead::Exists(true)), Err(CaptureError::IncorrectUse));
    assert!(c.is_incorrect_use());
    let mut c = CapturedReads::new();
    c.capture_read(key(1), DataRead::Exists(true)).unwrap();
    assert_eq!(c.capture_read(key(1), DataRead::Exists(true)), Err(CaptureError::IncorrectUse));
    assert!(c.is_incorrect_use());
    assert!(!c.is_speculative_failure());
    let mut c = CapturedReads::new();
    c.capture_read(key(1), DataRead::Versioned(Ok((0, 0)), vec![1])).unwrap();
    assert_eq!(c.capture_read(key(1), DataRead::Versioned(Ok((0, 0)), vec![1])), Err(CaptureError::IncorrectUse));
    assert!(matches!(c.get_by_kind(&key(1), ReadKind::Value), Some(DataRead::Versioned(Ok((0, 0)), _))));
}

#[test]
fn capture_of_inconsistent_read_is_speculative_failure() {
    let mut c = CapturedReads::new();
    c.capture_read(key(1), DataRead::Exists(false)).unwrap();
    assert_eq!(c.capture_read(key(1), DataRead::Versioned(Ok((0, 0)), vec![1])), Err(CaptureError::Inconsistency));
    assert!(c.is_speculative_failure());
    assert!(!c.is_incorrect_use());
    assert!(matches!(c.get_by_kind(&key(1), ReadKind::Exists), Some(DataRead::Exists(false))));
}

#[test]
fn validate_against_store() {
    let mut d = VersionedData::new();
    d.provide_base_value(key(1), vec![0]).unwrap();
    d.write(key(2), 0, 0, vec![2]).unwrap();
    let mut c = CapturedReads::new();
    c.capture_read(key(1), DataRead::Versioned(Err(StorageVersion), vec![0])).unwrap();
    c.capture_read(key(2), DataRead::Exists(true)).unwrap();
    assert!(c.validate_data_reads(&d, 3));
    d.write(key(1), 1, 0, vec![7]).unwrap();
    assert!(!c.validate_data_reads(&d, 3));
    assert!(c.validate_data_reads(&d, 1));
    d.mark_estimate(&key(2), 0).unwrap();
    assert!(!c.validate_data_reads(&d, 1));
}

#[test]
fn validate_fails_on_missing_value_and_on_failure_mark() {
    let d = VersionedData::new();
    let empty = CapturedReads::new();
    assert!(empty.validate_data_reads(&d, 0));
    let mut c = CapturedReads::new();
    c.capture_read(key(9), DataRead::Exists(false)).unwrap();
    assert!(!c.validate_data_reads(&d, 0));
    let mut f = CapturedReads::new();
    f.mark_failure();
    assert!(f.is_speculative_failure());
    assert!(!f.validate_data_reads(&d, 0));
}
