use filekv::driver::{average_micros, batch_is_full, AdmissionGate};

#[test]
fn gate_admits_at_most_capacity() {
    let capacity: usize = 3;
    let mut gate = AdmissionGate::new(capacity);
    let mut in_flight: usize = 0;
    let mut max_observed: usize = 0;
    let mut admitted_total: usize = 0;
    // Try to push ten tasks through; count how many are past the
    // admission point at each instant.
    for round in 0..10 {
        if gate.try_admit() {
            in_flight += 1;
            admitted_total += 1;
        }
        if in_flight > max_observed {
            max_observed = in_flight;
        }
        // Every third round one task finishes and releases its slot.
        if round % 3 == 2 && in_flight > 0 {
            gate.release();
            in_flight -= 1;
        }
    }
    assert!(max_observed <= capacity);
    assert_eq!(max_observed, capacity);
    assert!(admitted_total < 10);
}

#[test]
fn gate_refuses_when_full_and_admits_after_release() {
    let mut gate = AdmissionGate::new(2);
    assert!(gate.try_admit());
    assert!(gate.try_admit());
    assert!(!gate.try_admit());
    gate.release();
    assert!(gate.try_admit());
    assert!(!gate.try_admit());
}

#[test]
fn zero_capacity_gate_admits_nothing() {
    let mut gate = AdmissionGate::new(0);
    assert!(!gate.try_admit());
    assert!(!gate.try_admit());
}

#[test]
fn batch_fullness_matches_threshold() {
    assert!(!batch_is_full(0, 100000));
    assert!(!batch_is_full(99999, 100000));
    assert!(batch_is_full(100000, 100000));
    assert!(batch_is_full(100001, 100000));
    assert!(batch_is_full(0, 0));
}

#[test]
fn average_is_exact_integer_mean() {
    assert_eq!(average_micros(10, 4), Some(2));
    assert_eq!(average_micros(9, 3), Some(3));
    assert_eq!(average_micros(0, 5), Some(0));
    assert_eq!(average_micros(7, 0), None);
}
