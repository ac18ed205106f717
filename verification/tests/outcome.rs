use abnf::MatchOutcome;

#[test]
fn outcome_tells_its_kind() {
    let complete: MatchOutcome<u8, ()> = MatchOutcome::Complete(1);
    let pending: MatchOutcome<u8, ()> = MatchOutcome::Pending;
    let failed: MatchOutcome<u8, ()> = MatchOutcome::Failed(());
    assert!(complete.is_complete() && !complete.is_pending() && !complete.is_failed());
    assert!(!pending.is_complete() && pending.is_pending() && !pending.is_failed());
    assert!(!failed.is_complete() && !failed.is_pending() && failed.is_failed());
    assert_eq!(complete.clone(), MatchOutcome::Complete(1));
    assert_eq!(complete.complete(), Some(1));
    assert_eq!(pending.complete(), None);
    assert_eq!(failed.complete(), None);
}
