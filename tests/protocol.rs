use poker_strategy::protocol::{checkpoint_due, Operation, ProtocolError, AUTOSAVE_THRESHOLD, STD_BLOCK_SIZE};

#[test]
fn operation_bytes() {
    assert_eq!(Operation::from_byte(0), Ok(Operation::Request));
    assert_eq!(Operation::from_byte(1), Ok(Operation::Submit));
    assert_eq!(Operation::from_byte(2), Err(ProtocolError::UnknownOperation(2)));
    assert_eq!(Operation::from_byte(255), Err(ProtocolError::UnknownOperation(255)));
    assert_eq!(Operation::Request.to_byte(), 0);
    assert_eq!(Operation::Submit.to_byte(), 1);
}

#[test]
fn checkpoint_after_threshold() {
    let threshold = STD_BLOCK_SIZE * AUTOSAVE_THRESHOLD;
    assert!(!checkpoint_due(10_000, 10_000, threshold));
    assert!(!checkpoint_due(10_000, 10_000 - threshold, threshold));
    assert!(checkpoint_due(10_000, 10_000 - threshold - 1, threshold));
    assert!(!checkpoint_due(5, 9, threshold));
}
