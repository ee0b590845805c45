use parallel_executor::captured_reads::ReadKind;
use parallel_executor::ext::{ParallelState, ReadResult, ReadStep};
use parallel_executor::versioned_data::VersionedData;

fn key(b: u8) -> Vec<u8> {
    vec![b]
}

#[test]
fn read_asks_for_base_value_then_serves_it() {
    let mut d = VersionedData::new();
    let mut s = ParallelState::new(2);
    assert!(matches!(s.read_top_data_by_kind(&d, &key(1), ReadKind::Value), ReadStep::Done(ReadResult::Uninitialized)));
    d.provide_base_value(key(1), vec![8]).unwrap();
    match s.read_top_data_by_kind(&d, &key(1), ReadKind::Value) {
        ReadStep::Done(ReadResult::Value(Some(v))) => assert_eq!(v, vec![8]),
        other => panic!("unexpected {:?}", other),
    }
    d.write(key(1), 0, 0, vec![9]).unwrap();
    match s.read_top_data_by_kind(&d, &key(1), ReadKind::Value) {
        ReadStep::Done(ReadResult::Value(Some(v))) => assert_eq!(v, vec![8]),
        other => panic!("unexpected {:?}", other),
    }
    let reads = s.take_reads();
    assert!(!reads.validate_data_reads(&d, 2));
}

#[test]
fn read_waits_on_estimate() {
    let mut d = VersionedData::new();
    d.write(key(1), 0, 0, vec![1]).unwrap();
    d.mark_estimate(&key(1), 0).unwrap();
    let mut s = ParallelState::new(1);
    assert!(matches!(s.read_top_data_by_kind(&d, &key(1), ReadKind::Exists), ReadStep::WaitFor(0)));
    d.write(key(1), 0, 1, vec![3]).unwrap();
    assert!(matches!(s.read_top_data_by_kind(&d, &key(1), ReadKind::Exists), ReadStep::Done(ReadResult::Exists(true))));
}

#[test]
fn read_upgrades_existence_to_value() {
    let mut d = VersionedData::new();
    d.write(key(1), 0, 0, vec![1]).unwrap();
    let mut s = ParallelState::new(3);
    assert!(matches!(s.read_top_data_by_kind(&d, &key(1), ReadKind::Exists), ReadStep::Done(ReadResult::Exists(true))));
    d.delete(&key(1), 0).unwrap();
    d.provide_base_value(key(1), vec![0]).unwrap();
    match s.read_top_data_by_kind(&d, &key(1), ReadKind::Value) {
        ReadStep::Done(ReadResult::Value(Some(v))) => assert_eq!(v, vec![0]),
        other => panic!("unexpected {:?}", other),
    }
    let reads = s.take_reads();
    assert!(reads.validate_data_reads(&d, 3));
}

#[test]
fn marked_failure_is_kept_in_reads() {
    let mut t = ParallelState::new(3);
    t.mark_failure();
    let reads = t.take_reads();
    assert!(reads.is_speculative_failure());
}
