use vstd::prelude::*;
use crate::types::Storage;

verus! {

/// The relay's adjustable settings: signing key name and the three
/// stage periods.
pub struct Config {
    pub key: String,
    pub signer_interval_secs: u64,
    pub writer_interval_secs: u64,
    pub checker_interval_secs: u64,
}

impl Config {
    /// The settings as currently stored.
    pub fn get(storage: &Storage) -> (r: Config)
        ensures
            r.key@ == storage.key@,
            r.signer_interval_secs == storage.signer_job.interval(),
            r.writer_interval_secs == storage.writer_job.interval(),
            r.checker_interval_secs == storage.checker_job.interval(),
    {
        Config {
            key: storage.key.clone(),
            signer_interval_secs: storage.signer_job.interval_secs(),
            writer_interval_secs: storage.writer_job.interval_secs(),
            checker_interval_secs: storage.checker_job.interval_secs(),
        }
    }
}

/// A partial settings change: absent fields stay as they are.
pub struct ConfigUpdate {
    pub key: Option<String>,
    pub signer_interval_secs: Option<u64>,
    pub writer_interval_secs: Option<u64>,
    pub checker_interval_secs: Option<u64>,
}

/// What applying a settings change does: named fields land, absent
/// fields leave their job untouched, a retimed job ends up armed with
/// the matching fresh timer, everything else stays, and the returned
/// handles are the stale timers the host must cancel.
pub open spec fn update_applied(
    u: ConfigUpdate,
    pre: Storage,
    post: Storage,
    cancelled: (Option<u64>, Option<u64>, Option<u64>),
    signer_timer: u64,
    writer_timer: u64,
    checker_timer: u64,
) -> bool {
    &&& (u.key matches Some(k) ==> post.key == k)
    &&& (u.key is None ==> post.key == pre.key)
    &&& post.public_key == pre.public_key
    &&& post.chains_storage == pre.chains_storage
    &&& post.listened_messages == pre.listened_messages
    &&& post.signed_messages == pre.signed_messages
    &&& post.balances_storage == pre.balances_storage
    &&& post.daemon_storage == pre.daemon_storage
    &&& post.pending_txs_storage == pre.pending_txs_storage
    &&& (u.signer_interval_secs matches Some(n) ==> (post.signer_job.interval() == n
        && post.signer_job.active() && post.signer_job.timer() == Some(signer_timer)
        && cancelled.0 == (if pre.signer_job.active() {
        pre.signer_job.timer()
    } else {
        Option::<u64>::None
    })))
    &&& (u.signer_interval_secs is None ==> (post.signer_job == pre.signer_job && cancelled.0
        is None))
    &&& (u.writer_interval_secs matches Some(n) ==> (post.writer_job.interval() == n
        && post.writer_job.active() && post.writer_job.timer() == Some(writer_timer)
        && cancelled.1 == (if pre.writer_job.active() {
        pre.writer_job.timer()
    } else {
        Option::<u64>::None
    })))
    &&& (u.writer_interval_secs is None ==> (post.writer_job == pre.writer_job && cancelled.1
        is None))
    &&& (u.checker_interval_secs matches Some(n) ==> (post.checker_job.interval() == n
        && post.checker_job.active() && post.checker_job.timer() == Some(checker_timer)
        && cancelled.2 == (if pre.checker_job.active() {
        pre.checker_job.timer()
    } else {
        Option::<u64>::None
    })))
    &&& (u.checker_interval_secs is None ==> (post.checker_job == pre.checker_job && cancelled.2
        is None))
    &&& post.signer_job.kind() == pre.signer_job.kind()
    &&& post.writer_job.kind() == pre.writer_job.kind()
    &&& post.checker_job.kind() == pre.checker_job.kind()
}

impl ConfigUpdate {
    /// Apply the change. A retimed job is disarmed and rearmed with
    /// the matching fresh timer; the returned handles are the timers
    /// the host must cancel, in stage order.
    pub fn apply(
        &self,
        storage: &mut Storage,
        signer_timer: u64,
        writer_timer: u64,
        checker_timer: u64,
    ) -> (cancelled: (Option<u64>, Option<u64>, Option<u64>))
        ensures
            update_applied(
                *self,
                *old(storage),
                *final(storage),
                cancelled,
                signer_timer,
                writer_timer,
                checker_timer,
            ),
    {
        if let Some(key) = &self.key {
            storage.key = key.clone();
        }
        let c0 = match self.signer_interval_secs {
            Some(n) => storage.signer_job.update_interval_secs(n, signer_timer),
            None => None,
        };
        let c1 = match self.writer_interval_secs {
            Some(n) => storage.writer_job.update_interval_secs(n, writer_timer),
            None => None,
        };
        let c2 = match self.checker_interval_secs {
            Some(n) => storage.checker_job.update_interval_secs(n, checker_timer),
            None => None,
        };
        (c0, c1, c2)
    }
}

} // verus!
