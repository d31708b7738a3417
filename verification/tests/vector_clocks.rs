use causal_crdt::ClockComparison;
use causal_crdt::VectorClock;

#[test]
fn increment() {
    let mut clock_1 = VectorClock::init();
    clock_1.increment(0);

    assert_eq!(clock_1.get(0), 1);
    assert_eq!(clock_1.get(1), 0);
}

#[test]
fn compare_equal() {
    let clock_1 = VectorClock::init();

    let clock_2 = VectorClock::init();

    assert_eq!(clock_1.compare(&clock_2), ClockComparison::Equal);
}

#[test]
fn compare_concurrent() {
    let mut clock_1 = VectorClock::init();
    clock_1.increment(0);

    let mut clock_2 = VectorClock::init();
    clock_2.increment(1);

    assert_eq!(clock_1.compare(&clock_2), ClockComparison::Concurrent);
}

#[test]
fn merge_is_pointwise_maximum() {
    let mut clock_1 = VectorClock::init();
    clock_1.increment(0);

    let mut clock_2 = VectorClock::init();
    clock_2.increment(1);
    clock_2.increment(1);

    clock_1.merge(0, &clock_2);

    assert_eq!(clock_1.get(0), 1);
    assert_eq!(clock_1.get(1), 2);
}

#[test]
fn compare_less_after_strict_growth() {
    let mut clock_1 = VectorClock::init();
    clock_1.increment(0);

    let mut clock_2 = VectorClock::init();
    clock_2.merge(1, &clock_1);
    clock_2.increment(1);

    assert_eq!(clock_1.compare(&clock_2), ClockComparison::Less);
    assert_eq!(clock_2.compare(&clock_1), ClockComparison::Greater);
}

#[test]
fn equals_is_pointwise() {
    let mut clock_1 = VectorClock::init();
    clock_1.increment(3);
    clock_1.increment(3);

    let mut clock_2 = VectorClock::init();
    clock_2.increment(3);

    assert!(!clock_1.equals(&clock_2));
    clock_2.increment(3);
    assert!(clock_1.equals(&clock_2));
}
