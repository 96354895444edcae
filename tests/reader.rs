use fileserve::error::{ServerError, TransportFault};
use fileserve::reader::{ReadOutcome, ReadRetry, ReadStep, MAX_RETRIES, STALL_IN_SECS, STREAM_BLOCK_IN_SECS};

#[test]
fn six_empty_reads_give_up_after_five_retries() {
    let mut r = ReadRetry::new();
    for _ in 0..MAX_RETRIES {
        assert_eq!(r.record(ReadOutcome::Empty), ReadStep::Sleep(STALL_IN_SECS));
    }
    assert_eq!(
        r.record(ReadOutcome::Empty),
        ReadStep::GiveUp(ServerError::TransportError(TransportFault::RetriesExhausted))
    );
}

#[test]
fn would_block_waits_longer_and_counts() {
    let mut r = ReadRetry::new();
    assert_eq!(r.record(ReadOutcome::WouldBlock), ReadStep::Sleep(5));
    assert_eq!(r.record(ReadOutcome::Failed), ReadStep::Sleep(1));
    assert_eq!(STREAM_BLOCK_IN_SECS, 5);
    for _ in 0..3 {
        assert!(matches!(r.record(ReadOutcome::Empty), ReadStep::Sleep(_)));
    }
    assert!(matches!(r.record(ReadOutcome::WouldBlock), ReadStep::GiveUp(_)));
}

#[test]
fn data_resets_the_count() {
    let mut r = ReadRetry::new();
    for _ in 0..5 {
        assert!(matches!(r.record(ReadOutcome::Empty), ReadStep::Sleep(_)));
    }
    assert_eq!(r.record(ReadOutcome::Data), ReadStep::Scan);
    for _ in 0..5 {
        assert!(matches!(r.record(ReadOutcome::Failed), ReadStep::Sleep(1)));
    }
    assert!(matches!(r.record(ReadOutcome::Empty), ReadStep::GiveUp(_)));
}
