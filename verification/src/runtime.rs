use vstd::prelude::*;

use crate::debug::WfcFailureReason;
use crate::text::decimal_spec;

verus! {

/// The identifier of a background solve.
#[derive(Clone, Copy, Debug, PartialEq, Eq, Structural, Hash)]
pub struct WfcJobId(pub u64);

impl Default for WfcJobId {
    fn default() -> (r: Self)
        ensures
            r == WfcJobId(0),
    {
        WfcJobId(0)
    }
}

/// Where a background solve stands.
#[derive(Clone, Copy, Debug, PartialEq, Eq, Structural, Hash)]
pub enum WfcJobStatus {
    Queued,
    Running,
    Succeeded,
    Failed,
    Cancelled,
}

impl Default for WfcJobStatus {
    fn default() -> (r: Self)
        ensures
            r == WfcJobStatus::Running,
    {
        WfcJobStatus::Running
    }
}

/// Counters of the background solves.
#[derive(Clone, Copy, Debug, PartialEq, Eq, Structural)]
pub struct WfcRuntimeDiagnostics {
    pub active: bool,
    pub submitted_jobs: u64,
    pub running_jobs: u64,
    pub completed_jobs: u64,
    pub failed_jobs: u64,
    pub cancelled_jobs: u64,
    pub last_job_id: Option<WfcJobId>,
    pub last_status: Option<WfcJobStatus>,
    pub last_signature: Option<u64>,
    pub last_failure_reason: Option<WfcFailureReason>,
}

impl Default for WfcRuntimeDiagnostics {
    fn default() -> (r: Self)
        ensures
            r == (WfcRuntimeDiagnostics {
                active: false,
                submitted_jobs: 0,
                running_jobs: 0,
                completed_jobs: 0,
                failed_jobs: 0,
                cancelled_jobs: 0,
                last_job_id: None,
                last_status: None,
                last_signature: None,
                last_failure_reason: None,
            }),
    {
        WfcRuntimeDiagnostics {
            active: false,
            submitted_jobs: 0,
            running_jobs: 0,
            completed_jobs: 0,
            failed_jobs: 0,
            cancelled_jobs: 0,
            last_job_id: None,
            last_status: None,
            last_signature: None,
            last_failure_reason: None,
        }
    }
}

/// `a + 1`, held at the largest value.
pub open spec fn bump(a: u64) -> u64 {
    if a == u64::MAX {
        a
    } else {
        (a + 1) as u64
    }
}

/// `a - 1`, held at zero.
pub open spec fn drop_one(a: u64) -> u64 {
    if a == 0 {
        0
    } else {
        (a - 1) as u64
    }
}

impl WfcRuntimeDiagnostics {
    /// The runtime was switched on or off.
    pub fn set_active(&mut self, active: bool)
        ensures
            *final(self) == (WfcRuntimeDiagnostics { active, ..*old(self) }),
    {
        self.active = active;
    }

    /// A job was submitted and started running.
    pub fn record_submitted(&mut self, job_id: WfcJobId)
        ensures
            *final(self) == (WfcRuntimeDiagnostics {
                submitted_jobs: bump(old(self).submitted_jobs),
                running_jobs: bump(old(self).running_jobs),
                last_job_id: Some(job_id),
                last_status: Some(WfcJobStatus::Running),
                last_failure_reason: None,
                ..*old(self)
            }),
    {
        self.submitted_jobs = self.submitted_jobs.saturating_add(1);
        self.running_jobs = self.running_jobs.saturating_add(1);
        self.last_job_id = Some(job_id);
        self.last_status = Some(WfcJobStatus::Running);
        self.last_failure_reason = None;
    }

    /// A running job was cancelled.
    pub fn record_cancelled(&mut self, job_id: WfcJobId)
        ensures
            *final(self) == (WfcRuntimeDiagnostics {
                running_jobs: drop_one(old(self).running_jobs),
                cancelled_jobs: bump(old(self).cancelled_jobs),
                last_job_id: Some(job_id),
                last_status: Some(WfcJobStatus::Cancelled),
                last_failure_reason: None,
                ..*old(self)
            }),
    {
        self.running_jobs = self.running_jobs.saturating_sub(1);
        self.cancelled_jobs = self.cancelled_jobs.saturating_add(1);
        self.last_job_id = Some(job_id);
        self.last_status = Some(WfcJobStatus::Cancelled);
        self.last_failure_reason = None;
    }

    /// A job finished with a solution of the given signature.
    pub fn record_succeeded(&mut self, job_id: WfcJobId, signature: u64)
        ensures
            *final(self) == (WfcRuntimeDiagnostics {
                running_jobs: drop_one(old(self).running_jobs),
                completed_jobs: bump(old(self).completed_jobs),
                last_job_id: Some(job_id),
                last_status: Some(WfcJobStatus::Succeeded),
                last_signature: Some(signature),
                last_failure_reason: None,
                ..*old(self)
            }),
    {
        self.running_jobs = self.running_jobs.saturating_sub(1);
        self.last_job_id = Some(job_id);
        self.completed_jobs = self.completed_jobs.saturating_add(1);
        self.last_status = Some(WfcJobStatus::Succeeded);
        self.last_signature = Some(signature);
        self.last_failure_reason = None;
    }

    /// A job failed for `reason`.
    pub fn record_failed(&mut self, job_id: WfcJobId, reason: WfcFailureReason)
        ensures
            *final(self) == (WfcRuntimeDiagnostics {
                running_jobs: drop_one(old(self).running_jobs),
                failed_jobs: bump(old(self).failed_jobs),
                last_job_id: Some(job_id),
                last_status: Some(WfcJobStatus::Failed),
                last_failure_reason: Some(reason),
                ..*old(self)
            }),
    {
        self.running_jobs = self.running_jobs.saturating_sub(1);
        self.last_job_id = Some(job_id);
        self.failed_jobs = self.failed_jobs.saturating_add(1);
        self.last_status = Some(WfcJobStatus::Failed);
        self.last_failure_reason = Some(reason);
    }

    /// The number of jobs still running, as counted afresh.
    pub fn refresh_running(&mut self, running: u64)
        ensures
            *final(self) == (WfcRuntimeDiagnostics { running_jobs: running, ..*old(self) }),
    {
        self.running_jobs = running;
    }
}

/// Whether the runtime accepts work, and the last job id it handed out.
#[derive(Clone, Copy, Debug, PartialEq, Eq, Structural)]
pub struct WfcRuntimeState {
    pub active: bool,
    pub next_job_id: u64,
}

impl Default for WfcRuntimeState {
    fn default() -> (r: Self)
        ensures
            r == (WfcRuntimeState { active: false, next_job_id: 0 }),
    {
        WfcRuntimeState { active: false, next_job_id: 0 }
    }
}

impl WfcRuntimeState {
    /// Hand out the next job id.
    pub fn next_job(&mut self) -> (r: WfcJobId)
        ensures
            final(self).next_job_id == bump(old(self).next_job_id),
            final(self).active == old(self).active,
            r == WfcJobId(final(self).next_job_id),
    {
        self.next_job_id = self.next_job_id.saturating_add(1);
        WfcJobId(self.next_job_id)
    }
}

/// The label of a job that was given none.
pub fn default_job_label(job_id: WfcJobId) -> (r: String)
    ensures
        r@ == "WFC Job "@ + decimal_spec(job_id.0 as nat),
{
    let r = crate::text::with_number("WFC Job ", job_id.0, "");
    proof {
        reveal_strlit("");
        assert(r@ =~= "WFC Job "@ + decimal_spec(job_id.0 as nat));
    }
    r
}

} // verus!
