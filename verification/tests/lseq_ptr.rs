use causal_crdt::LSeqPtr;

type Sequence = Vec<u8>;

#[test]
fn test_generate_seq_empty() {
    let low = LSeqPtr::new(0);
    let high = LSeqPtr::new(1);

    let expected_sequence: Sequence = vec![1];
    let sequence = LSeqPtr::generate_seq(&low.sequence, &high.sequence);

    assert_eq!(expected_sequence, sequence);
}

#[test]
fn test_generate_seq_start() {
    let low = LSeqPtr::new(0);
    let mut high = LSeqPtr::new(1);
    high.sequence = vec![1];

    let expected_sequence: Sequence = vec![0, 1];
    let sequence = LSeqPtr::generate_seq(&low.sequence, &high.sequence);

    assert_eq!(expected_sequence, sequence);
}

#[test]
fn test_generate_seq_end() {
    let mut low = LSeqPtr::new(0);
    low.sequence = vec![1];
    let high = LSeqPtr::new(1);

    let expected_sequence: Sequence = vec![2];
    let sequence = LSeqPtr::generate_seq(&low.sequence, &high.sequence);

    assert_eq!(expected_sequence, sequence);
}

#[test]
fn test_generate_seq_middle() {
    let mut low = LSeqPtr::new(0);
    low.sequence = vec![1];
    let mut high = LSeqPtr::new(1);
    high.sequence = vec![2];

    let expected_sequence: Sequence = vec![1, 1];
    let sequence = LSeqPtr::generate_seq(&low.sequence, &high.sequence);

    assert_eq!(expected_sequence, sequence);
}

#[test]
fn test_eq() {
    let mut low = LSeqPtr::new(0);
    low.sequence = vec![1];
    let mut high = LSeqPtr::new(0);
    high.sequence = vec![1];

    assert!(low == high);
}

#[test]
fn test_ord() {
    let mut low = LSeqPtr::new(0);
    low.sequence = vec![1];
    let mut high = LSeqPtr::new(0);
    high.sequence = vec![2];

    assert!(low < high);
}

#[test]
fn test_multiple_ord() {
    let mut low = LSeqPtr::new(0);
    low.sequence = vec![1, 1];
    let mut high = LSeqPtr::new(0);
    high.sequence = vec![1, 2];

    assert!(low < high);
}

#[test]
fn test_ord_different_lengths() {
    let mut low = LSeqPtr::new(0);
    low.sequence = vec![1, 1];
    let mut high = LSeqPtr::new(0);
    high.sequence = vec![1, 1, 1];

    assert!(low < high);
}

#[test]
fn test_generate_seq_between_owner_tiebreak() {
    // Concurrent inserts between the same neighbours get the same sequence;
    // the owner breaks the tie deterministically.
    let left: Sequence = vec![];
    let right: Sequence = vec![];
    let a = LSeqPtr::from(0, &left, &right);
    let b = LSeqPtr::from(1, &left, &right);
    assert_eq!(a.sequence, b.sequence);
    assert!(a < b);
}

#[test]
fn test_generate_seq_blocked_position() {
    // Nothing fits between 254 and 255 at the first position, so the
    // generator descends one level.
    let low: Sequence = vec![254];
    let high: Sequence = vec![255];
    let mid = LSeqPtr::generate_seq(&low, &high);
    assert_eq!(mid, vec![254, 1]);
}
