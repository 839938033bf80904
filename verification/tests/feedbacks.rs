use stratamoto::feedbacks::{CaptureTimeoutFeedback, CauseCounts, TimeoutVerdict, cause_of};

#[test]
fn a_report_is_filed_by_its_oracle() {
    assert_eq!(
        cause_of(b"FAIL: SetupConnectionOracle: the answer was silence\n").as_deref(),
        Some("setupconnection")
    );
    assert_eq!(
        cause_of(b"[init] ...\nFAIL: CrashOracle: the role stopped serving").as_deref(),
        Some("crash")
    );
    assert_eq!(
        cause_of(b"INFRASTRUCTURE: HarnessIntegrityOracle: action 3 has no outcome").as_deref(),
        Some("infrastructure")
    );
    assert_eq!(cause_of(b"FAIL: Oracle: nameless").as_deref(), Some("other"));
    assert_eq!(cause_of(b"the test case passed"), None);
}

#[test]
fn the_first_report_on_the_stream_decides() {
    assert_eq!(
        cause_of(b"FAIL: TimeoutOracle: late\nINFRASTRUCTURE: lost").as_deref(),
        Some("timeout")
    );
    assert_eq!(
        cause_of(b"INFRASTRUCTURE: lost\nFAIL: TimeoutOracle: late").as_deref(),
        Some("infrastructure")
    );
}

#[test]
fn a_tag_without_a_name_is_no_report() {
    assert_eq!(cause_of(b"FAIL: "), None);
    assert_eq!(cause_of(b"FAIL: 42 went wrong"), None);
    assert_eq!(cause_of(b"FAIL:Crash"), None);
    assert_eq!(cause_of(b"FAIL: 1\nFAIL: CRASHORACLE").as_deref(), Some("crash"));
}

#[test]
fn a_name_without_the_suffix_is_other() {
    assert_eq!(cause_of(b"FAIL: Crash: gone").as_deref(), Some("other"));
    assert_eq!(cause_of(b"prefixFAIL: BlockOracle").as_deref(), Some("block"));
}

#[test]
fn timeouts_are_queued_while_captured_and_filed_once_confirmed() {
    let mut feedback = CaptureTimeoutFeedback::new();
    assert_eq!(feedback.is_interesting(true, true), TimeoutVerdict::Queued);
    assert_eq!(feedback.append_metadata(), None);
    assert_eq!(feedback.is_interesting(true, false), TimeoutVerdict::Uninteresting);
    assert_eq!(feedback.is_interesting(false, true), TimeoutVerdict::Objective);
    assert_eq!(feedback.append_metadata(), Some(1));
    assert_eq!(feedback.is_interesting(false, true), TimeoutVerdict::Objective);
    assert_eq!(feedback.append_metadata(), Some(2));
    assert_eq!(feedback.is_interesting(false, false), TimeoutVerdict::Uninteresting);
    assert_eq!(feedback.append_metadata(), None);
}

#[test]
fn findings_are_counted_per_cause() {
    let mut counts = CauseCounts::new();
    assert_eq!(counts.record("crash".to_string()), 1);
    assert_eq!(counts.record("setupconnection".to_string()), 1);
    assert_eq!(counts.record("crash".to_string()), 2);
    assert_eq!(
        counts.counts(),
        &[("crash".to_string(), 2), ("setupconnection".to_string(), 1)]
    );
}
