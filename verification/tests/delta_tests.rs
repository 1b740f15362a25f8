use rsync_core::delta::{DeltaInstruction, DeltaStats};

#[test]
fn test_delta_instruction_size() {
    let matched = DeltaInstruction::matched_block(0);
    assert_eq!(matched.size(), 4);

    let literal = DeltaInstruction::literal_data(vec![1, 2, 3, 4, 5]);
    assert_eq!(literal.size(), 9);
}

#[test]
fn test_delta_instruction_predicates() {
    let matched = DeltaInstruction::matched_block(0);
    assert!(matched.is_matched_block());
    assert!(!matched.is_literal_data());

    let literal = DeltaInstruction::literal_data(vec![1, 2, 3]);
    assert!(!literal.is_matched_block());
    assert!(literal.is_literal_data());
}

#[test]
fn test_delta_stats_all_matched() {
    let instructions = vec![
        DeltaInstruction::matched_block(0),
        DeltaInstruction::matched_block(1),
        DeltaInstruction::matched_block(2),
    ];

    let stats = DeltaStats::from_instructions(&instructions);
    assert_eq!(stats.matched_blocks, 3);
    assert_eq!(stats.literal_bytes, 0);
    assert_eq!(stats.total_transfer_size, 12);
}

#[test]
fn test_delta_stats_all_literal() {
    let instructions = vec![
        DeltaInstruction::literal_data(vec![1, 2, 3]),
        DeltaInstruction::literal_data(vec![4, 5]),
    ];

    let stats = DeltaStats::from_instructions(&instructions);
    assert_eq!(stats.matched_blocks, 0);
    assert_eq!(stats.literal_bytes, 5);
    assert_eq!(stats.total_transfer_size, 13);
}

#[test]
fn test_delta_stats_mixed() {
    let instructions = vec![
        DeltaInstruction::matched_block(0),
        DeltaInstruction::literal_data(vec![1, 2, 3, 4, 5]),
        DeltaInstruction::matched_block(1),
        DeltaInstruction::literal_data(vec![6, 7]),
    ];

    let stats = DeltaStats::from_instructions(&instructions);
    assert_eq!(stats.matched_blocks, 2);
    assert_eq!(stats.literal_bytes, 7);
    assert_eq!(stats.total_transfer_size, 23);
}

#[test]
fn test_delta_instruction_equality() {
    let a = DeltaInstruction::literal_data(vec![1, 2]);
    let b = DeltaInstruction::literal_data(vec![1, 2]);
    let c = DeltaInstruction::literal_data(vec![1, 3]);
    let m = DeltaInstruction::matched_block(7);
    assert_eq!(a, b);
    assert_ne!(a, c);
    assert_ne!(a, m);
    assert_eq!(m, DeltaInstruction::matched_block(7));
}
