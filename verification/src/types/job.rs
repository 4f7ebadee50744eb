use vstd::prelude::*;

verus! {

/// Which pipeline stage a periodic job drives.
#[derive(Debug, PartialEq, Eq, Structural, Clone, Copy)]
pub enum JobType {
    Signer,
    Writer,
    Checker,
    Unknown,
}

/// A stage job as ghost data.
pub struct JobView {
    pub interval_secs: u64,
    pub timer_id: Option<u64>,
    pub is_active: bool,
    pub job_type: JobType,
}

/// A periodic stage job. The host owns the real timers; the job
/// records the handle of the one timer it is allowed to hold.
pub struct Job {
    interval_secs: u64,
    timer_id: Option<u64>,
    is_active: bool,
    job_type: JobType,
}

impl View for Job {
    type V = JobView;

    closed spec fn view(&self) -> JobView {
        JobView {
            interval_secs: self.interval_secs,
            timer_id: self.timer_id,
            is_active: self.is_active,
            job_type: self.job_type,
        }
    }
}

impl Job {
    pub open spec fn active(&self) -> bool {
        self@.is_active
    }

    pub open spec fn timer(&self) -> Option<u64> {
        self@.timer_id
    }

    pub open spec fn kind(&self) -> JobType {
        self@.job_type
    }

    pub open spec fn interval(&self) -> u64 {
        self@.interval_secs
    }

    pub fn new(interval_secs: u64, job_type: JobType) -> (r: Self)
        ensures
            r.interval() == interval_secs,
            r.kind() == job_type,
            !r.active(),
            r.timer() is None,
    {
        Job { interval_secs, timer_id: None, is_active: false, job_type }
    }

    pub fn kind_value(&self) -> (r: JobType)
        ensures
            r == self.kind(),
    {
        self.job_type
    }

    /// A job as a restore rebuilds it: its settings and duty flag
    /// kept, its timer gone until the host re-arms one.
    pub fn restored(interval_secs: u64, job_type: JobType, is_active: bool) -> (r: Self)
        ensures
            r@ == (JobView { interval_secs, timer_id: None, is_active, job_type }),
    {
        Job { interval_secs, timer_id: None, is_active, job_type }
    }

    pub fn is_active(&self) -> (r: bool)
        ensures
            r == self.active(),
    {
        self.is_active
    }

    pub fn interval_secs(&self) -> (r: u64)
        ensures
            r == self.interval(),
    {
        self.interval_secs
    }

    /// Arm the job with a periodic timer the host just created. An
    /// already-active job keeps its timer and reports that the fresh
    /// one is not wanted.
    pub fn run(&mut self, timer_id: u64) -> (installed: bool)
        ensures
            final(self).interval() == old(self).interval(),
            final(self).kind() == old(self).kind(),
            old(self).active() ==> (*final(self) == *old(self) && !installed),
            !old(self).active() ==> (installed && final(self).active() && final(self).timer()
                == Some(timer_id)),
    {
        if self.is_active {
            return false;
        }
        self.timer_id = Some(timer_id);
        self.is_active = true;
        true
    }

    /// Disarm the job; the returned handle is the timer the host must
    /// cancel, if the job held one.
    pub fn stop(&mut self) -> (cancelled: Option<u64>)
        ensures
            final(self).interval() == old(self).interval(),
            final(self).kind() == old(self).kind(),
            !old(self).active() ==> (*final(self) == *old(self) && cancelled is None),
            old(self).active() ==> (!final(self).active() && final(self).timer() is None
                && cancelled == old(self).timer()),
    {
        if !self.is_active {
            return None;
        }
        let cancelled = self.timer_id;
        self.timer_id = None;
        self.is_active = false;
        cancelled
    }

    /// Change the period: disarm, retime, rearm with the fresh timer.
    /// The returned handle is the timer the host must cancel.
    pub fn update_interval_secs(&mut self, interval_secs: u64, timer_id: u64) -> (cancelled: Option<
        u64,
    >)
        ensures
            final(self).kind() == old(self).kind(),
            final(self).interval() == interval_secs,
            final(self).active(),
            final(self).timer() == Some(timer_id),
            cancelled == (if old(self).active() {
                old(self).timer()
            } else {
                Option::<u64>::None
            }),
    {
        let cancelled = self.stop();
        self.interval_secs = interval_secs;
        let installed = self.run(timer_id);
        cancelled
    }
}

} // verus!
