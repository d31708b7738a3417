use causal_crdt::CRDT;
use causal_crdt::ClockComparison;
use causal_crdt::Counter;
use causal_crdt::CounterCommand;
use causal_crdt::EventStore;
use causal_crdt::InMemory;
use causal_crdt::InputField;
use causal_crdt::InputKey;
use causal_crdt::InputReceiver;
use causal_crdt::LSeq;
use causal_crdt::LSeqCommand;
use causal_crdt::LSeqReceiver;
use causal_crdt::RGA;
use causal_crdt::RGACommand;
use causal_crdt::RGAReceiver;
use causal_crdt::ReplicaState;
use causal_crdt::VectorClock;

#[test]
fn counter_starts_at_zero() {
    let r0 = ReplicaState::create(0, Counter::default(Some(0)));
    assert_eq!(r0.process_query(), 0);
    assert_eq!(r0.seq_nr, 0);
}

#[test]
fn command_appends_contiguous_log() {
    let mut r0 = ReplicaState::create(0, Counter::default(Some(0)));
    let mut s0: InMemory<Counter> = InMemory::create();
    r0.process_command(&CounterCommand::Increment, &mut s0);
    r0.process_command(&CounterCommand::Increment, &mut s0);
    r0.process_command(&CounterCommand::Increment, &mut s0);

    // The local log is contiguous 1..=seq_nr.
    assert_eq!(r0.seq_nr, 3);
    assert_eq!(s0.events.len(), 3);
    for (i, event) in s0.events.iter().enumerate() {
        assert_eq!(event.local_seq_nr, (i + 1) as u64);
        assert_eq!(event.origin, 0);
        assert_eq!(event.origin_seq_nr, (i + 1) as u64);
    }
    // The replica's clock carries exactly its own three commands.
    assert_eq!(r0.version.get(0), 3);
}

#[test]
fn process_event_updates_observed_and_version() {
    let mut origin = ReplicaState::create(7, Counter::default(Some(7)));
    let mut origin_store: InMemory<Counter> = InMemory::create();
    origin.process_command(&CounterCommand::Increment, &mut origin_store);
    let event = &origin_store.events[0];

    let mut replica = ReplicaState::create(1, Counter::default(Some(1)));
    replica.process_event(event);

    // Observed reflects applied: the origin's mark covers the event.
    assert!(replica.observed.get(7) >= event.origin_seq_nr);
    // Version dominates: the event's clock is not above ours.
    let comparison = event.version.compare(&replica.version);
    assert!(
        comparison == ClockComparison::Less || comparison == ClockComparison::Equal
    );
    assert_eq!(replica.process_query(), 1);
}

#[test]
fn empty_replay_applies_nothing() {
    let mut r0 = ReplicaState::create(0, Counter::default(Some(0)));
    let s0: InMemory<Counter> = InMemory::create();
    let mut r1 = ReplicaState::create(1, Counter::default(Some(1)));

    let (_, seq_nr, version) = r1.process_sync(0);
    assert_eq!(seq_nr, 1);
    let (sender, last, events) = r0.process_replay(seq_nr, version, &s0);
    assert_eq!(last, 0);
    assert!(events.is_empty());

    let mut s1: InMemory<Counter> = InMemory::create();
    let applied = r1.process_replicated(sender, last, events, &mut s1);
    assert!(applied.is_none());
    assert_eq!(r1.seq_nr, 0);
}

#[test]
fn lseq_insert_and_remove() {
    let mut r0 = ReplicaState::create(0, LSeq::<char>::default(Some(0)));
    let mut s0: InMemory<LSeq<char>> = InMemory::create();
    r0.process_command(&LSeqCommand::Insert(0, 0, 'a'), &mut s0);
    r0.process_command(&LSeqCommand::Insert(1, 0, 'b'), &mut s0);
    r0.process_command(&LSeqCommand::Insert(1, 0, 'c'), &mut s0);
    let text: String = r0.process_query().into_iter().collect();
    assert_eq!(text, "acb");

    r0.process_command(&LSeqCommand::Remove(1), &mut s0);
    let text_after: String = r0.process_query().into_iter().collect();
    assert_eq!(text_after, "ab");
}

#[test]
fn rga_remove_leaves_tombstone() {
    let mut r0 = ReplicaState::create(0, RGA::<char>::default(Some(0)));
    let mut s0: InMemory<RGA<char>> = InMemory::create();
    r0.process_command(&RGACommand::Insert(0, 'a'), &mut s0);
    r0.process_command(&RGACommand::Insert(1, 'b'), &mut s0);
    r0.process_command(&RGACommand::Remove(0), &mut s0);
    assert_eq!(r0.process_query(), vec!['b']);

    // Removing the remaining visible element empties the view.
    r0.process_command(&RGACommand::Remove(0), &mut s0);
    assert_eq!(r0.process_query(), Vec::<char>::new());
}

#[test]
fn snapshot_round_trip() {
    let mut r0 = ReplicaState::create(0, Counter::default(Some(0)));
    let mut s0: InMemory<Counter> = InMemory::create();
    r0.process_command(&CounterCommand::Increment, &mut s0);
    s0.save_snapshot(&r0);

    let restored = s0.load_snapshot().expect("snapshot present");
    assert_eq!(restored.id, 0);
    assert_eq!(restored.seq_nr, 1);
    assert_eq!(restored.process_query(), 1);
}

#[test]
fn load_events_filters_by_start() {
    let mut r0 = ReplicaState::create(0, Counter::default(Some(0)));
    let mut s0: InMemory<Counter> = InMemory::create();
    for _ in 0..5 {
        r0.process_command(&CounterCommand::Increment, &mut s0);
    }
    let tail = s0.load_events(4);
    assert_eq!(tail.len(), 2);
    assert_eq!(tail[0].local_seq_nr, 4);
    assert_eq!(tail[1].local_seq_nr, 5);
}

#[test]
fn input_field_edits_and_reports() {
    let mut field = InputField::start(vec!['h', 'i']);
    let mut receiver = LSeqReceiver::new(3);

    field.apply_key(InputKey::Right, &mut receiver);
    field.apply_key(InputKey::Character('e'), &mut receiver);
    field.apply_key(InputKey::Right, &mut receiver);
    field.apply_key(InputKey::Character('y'), &mut receiver);
    field.apply_key(InputKey::Backspace, &mut receiver);

    let text: String = field.text_chars().into_iter().collect();
    assert_eq!(text, "hei");
    assert_eq!(field.cursor_index(), 3);

    assert_eq!(receiver.replica_id, 3);
    assert_eq!(receiver.commands.len(), 3);
    assert!(matches!(receiver.commands[0], LSeqCommand::Insert(1, 3, 'e')));
    assert!(matches!(receiver.commands[1], LSeqCommand::Insert(3, 3, 'y')));
    assert!(matches!(receiver.commands[2], LSeqCommand::Remove(4)));
}

#[test]
fn input_field_cursor_stays_in_bounds() {
    let mut field = InputField::start(vec!['x']);
    let mut receiver = RGAReceiver::new();

    field.apply_key(InputKey::Left, &mut receiver);
    assert_eq!(field.cursor_index(), 0);
    field.apply_key(InputKey::Backspace, &mut receiver);
    let text: String = field.text_chars().into_iter().collect();
    assert_eq!(text, "x");
    field.apply_key(InputKey::Right, &mut receiver);
    field.apply_key(InputKey::Right, &mut receiver);
    assert_eq!(field.cursor_index(), 1);
    assert!(receiver.commands.is_empty());
}

#[test]
fn rga_receiver_records_commands() {
    let mut receiver = RGAReceiver::new();
    receiver.insert_at(0, 'q');
    receiver.remove_at(1);
    assert_eq!(receiver.commands.len(), 2);
    assert!(matches!(receiver.commands[0], RGACommand::Insert(0, 'q')));
    assert!(matches!(receiver.commands[1], RGACommand::Remove(1)));
}

#[test]
fn clock_laws_on_values() {
    // Reflexivity: a clock is Equal to itself.
    let mut a = VectorClock::init();
    a.increment(1);
    a.increment(2);
    assert_eq!(a.compare(&a), ClockComparison::Equal);

    // Antisymmetry of Less and Greater.
    let mut b = a.clone();
    b.increment(2);
    assert_eq!(a.compare(&b), ClockComparison::Less);
    assert_eq!(b.compare(&a), ClockComparison::Greater);

    // Concurrent is symmetric.
    let mut c = a.clone();
    c.increment(9);
    let mut d = a.clone();
    d.increment(8);
    assert_eq!(c.compare(&d), ClockComparison::Concurrent);
    assert_eq!(d.compare(&c), ClockComparison::Concurrent);
}
