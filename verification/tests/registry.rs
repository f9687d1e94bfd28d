//! The signal registry: name validation, registration, ingestion.

use rust_data_inspector::names::PlotSignalNameError;
use rust_data_inspector::signal::{PlotSignalError, PlotSignalSample, PlotSignals};

fn sample(time: i64, value: i64) -> PlotSignalSample {
    PlotSignalSample { time, value }
}

#[test]
fn name_must_start_with_separator() {
    let mut signals = PlotSignals::default();
    match signals.add_signal("drone/sensors/press1") {
        Err(PlotSignalError::NameError { name, kind }) => {
            assert_eq!(name, "drone/sensors/press1");
            assert_eq!(kind, PlotSignalNameError::DoesNotStartWithSeparator);
        }
        _ => panic!("expected a name error"),
    }
}

#[test]
fn name_must_not_contain_consecutive_separators() {
    let mut signals = PlotSignals::default();
    match signals.add_signal("/drone/sensors//current") {
        Err(PlotSignalError::NameError { kind, .. }) => {
            assert_eq!(kind, PlotSignalNameError::ConsecutiveSeparators);
        }
        _ => panic!("expected a name error"),
    }
}

#[test]
fn name_must_not_contain_illegal_characters() {
    let mut signals = PlotSignals::default();
    match signals.add_signal("/drone/sensors/temp-bat") {
        Err(PlotSignalError::NameError { kind, .. }) => {
            assert_eq!(kind, PlotSignalNameError::IllegalCharacter);
        }
        _ => panic!("expected a name error"),
    }
}

#[test]
fn well_formed_names_are_accepted() {
    let mut signals = PlotSignals::default();
    assert!(signals.add_signal("/status").is_ok());
    assert!(signals.add_signal("/drone/sensors/accel/x").is_ok());
    assert!(signals.add_signal("/drone/sensors/accel/y").is_ok());
    assert!(signals.add_signal("/A_1/b2").is_ok());
}

#[test]
fn descendant_of_registered_name_is_rejected() {
    let mut signals = PlotSignals::default();
    signals.add_signal("/a/b").unwrap();
    match signals.add_signal("/a/b/c") {
        Err(PlotSignalError::NameError { kind, .. }) => {
            assert_eq!(kind, PlotSignalNameError::AncestorOrDescendantConflict);
        }
        _ => panic!("expected a conflict"),
    }
}

#[test]
fn ancestor_of_registered_name_is_rejected() {
    let mut signals = PlotSignals::default();
    signals.add_signal("/a/b").unwrap();
    match signals.add_signal("/a") {
        Err(PlotSignalError::NameError { kind, .. }) => {
            assert_eq!(kind, PlotSignalNameError::AncestorOrDescendantConflict);
        }
        _ => panic!("expected a conflict"),
    }
}

#[test]
fn duplicate_name_is_rejected() {
    let mut signals = PlotSignals::default();
    signals.add_signal("/a/b").unwrap();
    match signals.add_signal("/a/b") {
        Err(PlotSignalError::NameError { kind, .. }) => {
            assert_eq!(kind, PlotSignalNameError::AncestorOrDescendantConflict);
        }
        _ => panic!("expected a conflict"),
    }
}

#[test]
fn siblings_coexist() {
    let mut signals = PlotSignals::default();
    signals.add_signal("/a/b").unwrap();
    assert!(signals.add_signal("/a/c").is_ok());
    assert_eq!(signals.get_signals().len(), 2);
}

#[test]
fn ids_are_stable_across_registries() {
    let mut first = PlotSignals::default();
    let mut second = PlotSignals::default();
    let (id1, _) = first.add_signal("/drone/alt").unwrap();
    let (id2, _) = second.add_signal("/drone/alt").unwrap();
    assert_eq!(id1, id2);
    let (other, _) = second.add_signal("/drone/speed").unwrap();
    assert_ne!(id1, other);
}

#[test]
fn producer_reports_the_signal_id() {
    let mut signals = PlotSignals::default();
    let (id, producer) = signals.add_signal("/x").unwrap();
    assert_eq!(producer.id(), id);
}

#[test]
fn sent_samples_arrive_in_order() {
    let mut signals = PlotSignals::default();
    let (id, mut producer) = signals.add_signal("/sig").unwrap();
    for (t, v) in [(0, 0), (1000, 1000), (2000, 4000), (3000, 9000)] {
        producer.send(sample(t, v)).unwrap();
    }
    signals.update();
    let sig = signals.get_signal(id);
    assert_eq!(sig.time(), &vec![0, 1000, 2000, 3000]);
    assert_eq!(sig.data(), &vec![0, 1000, 4000, 9000]);
    assert_eq!(sig.name(), "/sig");
    assert_eq!(sig.id(), id);
    assert!(!sig.is_faulted());
}

#[test]
fn strictly_increasing_times_fill_the_buffer() {
    let mut signals = PlotSignals::default();
    let (id, mut producer) = signals.add_signal("/mono").unwrap();
    for t in 0..100 {
        producer.send(sample(t * 7, t)).unwrap();
    }
    signals.update();
    let time = signals.get_signal(id).time();
    assert_eq!(time.len(), 100);
    for w in time.windows(2) {
        assert!(w[0] < w[1]);
    }
}

#[test]
fn non_monotonic_sample_faults_the_signal() {
    let mut signals = PlotSignals::default();
    let (id, mut producer) = signals.add_signal("/sig").unwrap();
    producer.send(sample(10, 1)).unwrap();
    producer.send(sample(20, 2)).unwrap();
    producer.send(sample(15, 3)).unwrap();
    producer.send(sample(30, 4)).unwrap();
    signals.update();
    {
        let sig = signals.get_signal(id);
        assert_eq!(sig.time(), &vec![10, 20]);
        assert!(sig.is_faulted());
    }
    producer.send(sample(40, 5)).unwrap();
    signals.update();
    assert_eq!(signals.get_signal(id).time(), &vec![10, 20]);
}

#[test]
fn equal_time_is_a_fault() {
    let mut signals = PlotSignals::default();
    let (id, mut producer) = signals.add_signal("/sig").unwrap();
    producer.send(sample(10, 1)).unwrap();
    producer.send(sample(10, 2)).unwrap();
    signals.update();
    let sig = signals.get_signal(id);
    assert_eq!(sig.time(), &vec![10]);
    assert!(sig.is_faulted());
}

#[test]
fn cloned_producer_feeds_the_same_signal() {
    let mut signals = PlotSignals::default();
    let (id, mut producer) = signals.add_signal("/sig").unwrap();
    let mut cloned = producer.clone();
    assert_eq!(cloned.id(), id);
    producer.send(sample(1, 10)).unwrap();
    cloned.send(sample(2, 20)).unwrap();
    signals.update();
    let sig = signals.get_signal(id);
    assert_eq!(sig.time(), &vec![1, 2]);
    assert_eq!(sig.data(), &vec![10, 20]);
}

#[test]
fn send_fails_once_the_registry_is_gone() {
    let mut signals = PlotSignals::default();
    let (_, mut producer) = signals.add_signal("/sig").unwrap();
    drop(signals);
    let err = producer.send(sample(1, 2)).unwrap_err();
    assert_eq!(err.t.time, 1);
    assert_eq!(err.t.value, 2);
}

#[test]
fn path_elements_split_the_name() {
    let mut signals = PlotSignals::default();
    let (id, _) = signals.add_signal("/drone/sensors/accel/x").unwrap();
    let parts = signals.get_signal(id).path_elements();
    assert_eq!(parts, vec!["", "drone", "sensors", "accel", "x"]);
}

#[test]
fn ingest_batch_appends_and_faults_like_update() {
    let mut signals = PlotSignals::default();
    let (id, _p) = signals.add_signal("/x").unwrap();
    let mut sig = rust_data_inspector::signal::PlotSignal::new("/x".to_string(), id);
    rust_data_inspector::signal::ingest_batch(&mut sig, &vec![(1, 2), (3, 4)]);
    assert_eq!(sig.time(), &vec![1, 3]);
    assert_eq!(sig.data(), &vec![2, 4]);
    assert!(!sig.is_faulted());
    // The first non-increasing sample halts ingestion; the rest is dropped.
    rust_data_inspector::signal::ingest_batch(&mut sig, &vec![(5, 6), (5, 7), (9, 8)]);
    assert_eq!(sig.time(), &vec![1, 3, 5]);
    assert!(sig.is_faulted());
}

#[test]
fn update_without_samples_changes_nothing() {
    let mut signals = PlotSignals::default();
    let (id, _producer) = signals.add_signal("/sig").unwrap();
    signals.update();
    assert!(signals.get_signal(id).time().is_empty());
}
