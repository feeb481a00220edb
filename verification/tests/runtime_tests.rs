use saddle_procgen_wfc::debug::WfcFailureReason;
use saddle_procgen_wfc::runtime::{default_job_label, WfcJobId, WfcJobStatus, WfcRuntimeDiagnostics, WfcRuntimeState};

#[test]
fn job_lifecycle_updates_the_counters() {
    let mut diagnostics = WfcRuntimeDiagnostics::default();
    diagnostics.set_active(true);
    diagnostics.record_submitted(WfcJobId(1));
    diagnostics.record_submitted(WfcJobId(2));
    assert_eq!(diagnostics.submitted_jobs, 2);
    assert_eq!(diagnostics.running_jobs, 2);
    assert_eq!(diagnostics.last_status, Some(WfcJobStatus::Running));

    diagnostics.record_failed(WfcJobId(1), WfcFailureReason::Contradiction);
    assert_eq!(diagnostics.failed_jobs, 1);
    assert_eq!(diagnostics.running_jobs, 1);
    assert_eq!(diagnostics.last_failure_reason, Some(WfcFailureReason::Contradiction));

    diagnostics.record_succeeded(WfcJobId(2), 77);
    assert_eq!(diagnostics.completed_jobs, 1);
    assert_eq!(diagnostics.running_jobs, 0);
    assert_eq!(diagnostics.last_signature, Some(77));
    assert_eq!(diagnostics.last_failure_reason, None);
    assert_eq!(diagnostics.last_job_id, Some(WfcJobId(2)));
    assert!(diagnostics.active);
}

#[test]
fn cancelling_never_drops_below_zero() {
    let mut diagnostics = WfcRuntimeDiagnostics::default();
    diagnostics.record_cancelled(WfcJobId(5));
    assert_eq!(diagnostics.running_jobs, 0);
    assert_eq!(diagnostics.cancelled_jobs, 1);
    assert_eq!(diagnostics.last_status, Some(WfcJobStatus::Cancelled));
    diagnostics.refresh_running(3);
    assert_eq!(diagnostics.running_jobs, 3);
}

#[test]
fn job_ids_count_up_and_saturate() {
    let mut state = WfcRuntimeState { active: true, next_job_id: 0 };
    assert_eq!(state.next_job(), WfcJobId(1));
    assert_eq!(state.next_job(), WfcJobId(2));
    let mut full = WfcRuntimeState { active: false, next_job_id: u64::MAX };
    assert_eq!(full.next_job(), WfcJobId(u64::MAX));
    assert!(!full.active);
}

#[test]
fn job_labels_and_defaults() {
    assert_eq!(default_job_label(WfcJobId(42)), "WFC Job 42");
    assert_eq!(WfcJobId::default(), WfcJobId(0));
    assert_eq!(WfcJobStatus::default(), WfcJobStatus::Running);
}
