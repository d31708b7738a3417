use causal_crdt::CRDT;
use causal_crdt::Counter;
use causal_crdt::CounterCommand;
use causal_crdt::EventStore;
use causal_crdt::InMemory;
use causal_crdt::LSeq;
use causal_crdt::LSeqCommand;
use causal_crdt::ORSet;
use causal_crdt::RGA;
use causal_crdt::RGACommand;
use causal_crdt::ReplicaId;
use causal_crdt::ReplicaState;
use causal_crdt::SetCommand;

/// One pull: `requester` asks `provider` for everything it has not observed
/// from it, and applies the answer.
fn pull<C: CRDT>(
    requester: &mut ReplicaState<C>,
    requester_store: &mut InMemory<C>,
    provider: &mut ReplicaState<C>,
    provider_store: &InMemory<C>,
    provider_id: ReplicaId,
) {
    let (_, seq_nr, version) = requester.process_sync(provider_id);
    let (sender, last_seq_nr, events) = provider.process_replay(seq_nr, version, provider_store);
    requester.process_replicated(sender, last_seq_nr, events, requester_store);
}

#[test]
fn counter_convergence() {
    let mut r0 = ReplicaState::create(0, Counter::default(Some(0)));
    let mut s0: InMemory<Counter> = InMemory::create();
    let mut r1 = ReplicaState::create(1, Counter::default(Some(1)));
    let mut s1: InMemory<Counter> = InMemory::create();

    r0.process_command(&CounterCommand::Increment, &mut s0);
    r0.process_command(&CounterCommand::Increment, &mut s0);
    r1.process_command(&CounterCommand::Increment, &mut s1);

    pull(&mut r0, &mut s0, &mut r1, &s1, 1);
    pull(&mut r1, &mut s1, &mut r0, &s0, 0);

    assert_eq!(r0.process_query(), 3);
    assert_eq!(r1.process_query(), 3);
}

#[test]
fn or_set_add_wins() {
    let mut r0 = ReplicaState::create(0, ORSet::<u64>::default(Some(0)));
    let mut s0: InMemory<ORSet<u64>> = InMemory::create();
    let mut r1 = ReplicaState::create(1, ORSet::<u64>::default(Some(1)));
    let mut s1: InMemory<ORSet<u64>> = InMemory::create();

    r0.process_command(&SetCommand::Add(7), &mut s0);
    pull(&mut r1, &mut s1, &mut r0, &s0, 0);

    let values = |set: causal_crdt::BinarySet<u64>| -> Vec<u64> {
        set.0.iter().map(|p| p.0).collect()
    };
    assert_eq!(values(r0.process_query()), vec![7]);
    assert_eq!(values(r1.process_query()), vec![7]);

    // Concurrently: replica 0 removes 7, replica 1 adds 7 again.
    r0.process_command(&SetCommand::Remove(7), &mut s0);
    r1.process_command(&SetCommand::Add(7), &mut s1);

    pull(&mut r0, &mut s0, &mut r1, &s1, 1);
    pull(&mut r1, &mut s1, &mut r0, &s0, 0);
    pull(&mut r0, &mut s0, &mut r1, &s1, 1);
    pull(&mut r1, &mut s1, &mut r0, &s0, 0);

    // The concurrent add survives: its version was not observed by the
    // remove.
    let v0 = values(r0.process_query());
    let v1 = values(r1.process_query());
    assert_eq!(v0, vec![7]);
    assert_eq!(v1, vec![7]);
}

#[test]
fn lseq_concurrent_insert() {
    let mut r0 = ReplicaState::create(0, LSeq::<char>::default(Some(0)));
    let mut s0: InMemory<LSeq<char>> = InMemory::create();
    let mut r1 = ReplicaState::create(1, LSeq::<char>::default(Some(1)));
    let mut s1: InMemory<LSeq<char>> = InMemory::create();
    let mut r2 = ReplicaState::create(2, LSeq::<char>::default(Some(2)));
    let mut s2: InMemory<LSeq<char>> = InMemory::create();

    r0.process_command(&LSeqCommand::Insert(0, 0, 'A'), &mut s0);
    r1.process_command(&LSeqCommand::Insert(0, 1, 'B'), &mut s1);

    pull(&mut r0, &mut s0, &mut r1, &s1, 1);
    pull(&mut r1, &mut s1, &mut r0, &s0, 0);
    pull(&mut r2, &mut s2, &mut r0, &s0, 0);
    pull(&mut r2, &mut s2, &mut r1, &s1, 1);

    let text0: String = r0.process_query().into_iter().collect();
    let text1: String = r1.process_query().into_iter().collect();
    let text2: String = r2.process_query().into_iter().collect();
    // Both inserts sit between the empty neighbours, so both get the
    // sequence [1]; the owner tiebreak puts replica 0 first.
    assert_eq!(text0, "AB");
    assert_eq!(text1, "AB");
    assert_eq!(text2, "AB");
}

#[test]
fn rga_concurrent_insert_after_same_predecessor() {
    let mut r0 = ReplicaState::create(0, RGA::<char>::default(Some(0)));
    let mut s0: InMemory<RGA<char>> = InMemory::create();
    let mut r1 = ReplicaState::create(1, RGA::<char>::default(Some(1)));
    let mut s1: InMemory<RGA<char>> = InMemory::create();

    r0.process_command(&RGACommand::Insert(0, 'X'), &mut s0);
    pull(&mut r1, &mut s1, &mut r0, &s0, 0);
    assert_eq!(r1.process_query(), vec!['X']);

    r0.process_command(&RGACommand::Insert(1, 'Y'), &mut s0);
    r1.process_command(&RGACommand::Insert(1, 'Z'), &mut s1);

    pull(&mut r0, &mut s0, &mut r1, &s1, 1);
    pull(&mut r1, &mut s1, &mut r0, &s0, 0);

    // Both fresh pointers carry issue number 2; the larger replica wins the
    // tiebreak and sorts first among siblings.
    assert_eq!(r0.process_query(), vec!['X', 'Z', 'Y']);
    assert_eq!(r1.process_query(), vec!['X', 'Z', 'Y']);
}

#[test]
fn replay_after_restart() {
    let mut r0 = ReplicaState::create(0, Counter::default(Some(0)));
    let mut s0: InMemory<Counter> = InMemory::create();

    for i in 0..100u32 {
        r0.process_command(&CounterCommand::Increment, &mut s0);
        if i == 49 {
            s0.save_snapshot(&r0);
        }
    }
    assert_eq!(r0.process_query(), 100);

    // Restart: load the snapshot and replay the rest of the log.
    let mut restored = s0.load_snapshot().expect("a snapshot was saved");
    assert_eq!(restored.process_query(), 50);
    let events = s0.load_events(restored.seq_nr + 1);
    for event in &events {
        restored.process_event(event);
    }
    assert_eq!(restored.process_query(), 100);
    assert_eq!(restored.seq_nr, 100);
}

#[test]
fn duplicate_delivery() {
    let mut r0 = ReplicaState::create(0, Counter::default(Some(0)));
    let mut s0: InMemory<Counter> = InMemory::create();
    let mut r1 = ReplicaState::create(1, Counter::default(Some(1)));
    let mut s1: InMemory<Counter> = InMemory::create();

    r0.process_command(&CounterCommand::Increment, &mut s0);
    r0.process_command(&CounterCommand::Increment, &mut s0);

    // Produce the same answer twice and deliver it twice.
    let (_, seq_nr, version) = r1.process_sync(0);
    let (sender, last, events_first) = r0.process_replay(seq_nr, version, &s0);
    let (_, seq_nr_2, version_2) = r1.process_sync(0);
    assert_eq!(seq_nr, seq_nr_2);
    let (_, _, events_second) = r0.process_replay(seq_nr_2, version_2, &s0);

    let applied = r1.process_replicated(sender, last, events_first, &mut s1);
    assert!(applied.is_some());
    let seq_after_first = r1.seq_nr;
    let query_after_first = r1.process_query();

    let applied_again = r1.process_replicated(sender, last, events_second, &mut s1);
    assert!(applied_again.is_none());
    assert_eq!(r1.seq_nr, seq_after_first);
    assert_eq!(r1.process_query(), query_after_first);
    assert_eq!(r1.process_query(), 2);
}
