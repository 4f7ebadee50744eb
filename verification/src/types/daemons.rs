use vstd::prelude::*;
use crate::natural::Natural;
use crate::types::balances::BalancesStorage;
use crate::types::principal::Principal;
use crate::types::MINIMUM_CYCLES;

verus! {

#[derive(Debug)]
pub enum DaemonsError {
    DaemonNotFound,
    ChainNotFound,
    BalanceNotFound,
}

/// A subscription as ghost data.
pub struct DaemonView {
    pub id: u64,
    pub creator: Seq<u8>,
    pub listen_chain_id: u64,
    pub ccmp_contract: Seq<char>,
    pub interval_secs: u64,
    pub is_active: bool,
    pub timer_id: Option<u64>,
}

/// A user's subscription to one source chain's relay events. The host
/// owns the real one-shot timers; the daemon records the handle of the
/// one timer it may hold.
pub struct Daemon {
    pub id: u64,
    pub creator: Principal,
    pub listen_chain_id: u64,
    pub ccmp_contract: String,
    pub interval_secs: u64,
    pub is_active: bool,
    pub timer_id: Option<u64>,
}

impl View for Daemon {
    type V = DaemonView;

    open spec fn view(&self) -> DaemonView {
        DaemonView {
            id: self.id,
            creator: self.creator@,
            listen_chain_id: self.listen_chain_id,
            ccmp_contract: self.ccmp_contract@,
            interval_secs: self.interval_secs,
            is_active: self.is_active,
            timer_id: self.timer_id,
        }
    }
}

impl Clone for Daemon {
    fn clone(&self) -> (r: Self)
        ensures
            r@ == self@,
    {
        Daemon {
            id: self.id,
            creator: self.creator.clone(),
            listen_chain_id: self.listen_chain_id,
            ccmp_contract: self.ccmp_contract.clone(),
            interval_secs: self.interval_secs,
            is_active: self.is_active,
            timer_id: self.timer_id,
        }
    }
}

/// The registered daemons: slot `i` belongs to daemon id `i`, so ids
/// are dense and stable.
pub struct DaemonsStorage {
    pub daemons: Vec<Daemon>,
}

impl View for DaemonsStorage {
    type V = Seq<DaemonView>;

    open spec fn view(&self) -> Seq<DaemonView> {
        self.daemons@.map_values(|d: Daemon| d@)
    }
}

impl DaemonsStorage {
    /// Each daemon sits in the slot its id names.
    pub open spec fn wf(&self) -> bool {
        forall|i: int| 0 <= i < self@.len() ==> (#[trigger] self@[i]).id == i
    }

    pub open spec fn spec_daemon_count(&self) -> nat {
        self@.len()
    }

    pub fn new() -> (r: Self)
        ensures
            r.wf(),
            r@ == Seq::<DaemonView>::empty(),
    {
        let r = DaemonsStorage { daemons: Vec::new() };
        proof {
            assert(r@ =~= Seq::<DaemonView>::empty());
        }
        r
    }

    pub fn daemon_count(&self) -> (r: u64)
        requires
            self@.len() <= u64::MAX,
        ensures
            r == self.spec_daemon_count(),
    {
        self.daemons.len() as u64
    }

    /// Register a subscription under the next dense id; it starts out
    /// active and waits for the host to arm its first timer.
    pub fn add_daemon(
        &mut self,
        listen_chain_id: u64,
        ccmp_contract: String,
        interval_secs: u64,
        creator: Principal,
    ) -> (id: u64)
        requires
            old(self).wf(),
            old(self)@.len() < u64::MAX,
        ensures
            final(self).wf(),
            id == old(self)@.len(),
            final(self)@ == old(self)@.push(
                (DaemonView {
                    id: id,
                    creator: creator@,
                    listen_chain_id,
                    ccmp_contract: ccmp_contract@,
                    interval_secs,
                    is_active: true,
                    timer_id: None,
                }),
            ),
    {
        let id: u64 = self.daemons.len() as u64;
        let daemon = Daemon {
            id,
            creator,
            listen_chain_id,
            ccmp_contract,
            interval_secs,
            is_active: true,
            timer_id: None,
        };
        self.daemons.push(daemon);
        proof {
            assert(self@ =~= old(self)@.push(
                (DaemonView {
                    id: id,
                    creator: creator@,
                    listen_chain_id,
                    ccmp_contract: ccmp_contract@,
                    interval_secs,
                    is_active: true,
                    timer_id: None,
                }),
            ));
        }
        id
    }

    /// A copy of the daemon registered under an id.
    pub fn get_daemon(&self, id: u64) -> (r: Option<Daemon>)
        ensures
            (r is Some) <==> id < self@.len(),
            r is Some ==> r->Some_0@ == self@[id as int],
    {
        if id >= self.daemons.len() as u64 {
            return None;
        }
        Some(self.daemons[id as usize].clone())
    }

    /// Mark a daemon active and hand it the timer the host just armed.
    pub fn start(&mut self, id: u64, timer_id: u64)
        requires
            old(self).wf(),
            id < old(self)@.len(),
        ensures
            final(self).wf(),
            final(self)@ == old(self)@.update(
                id as int,
                (DaemonView { is_active: true, timer_id: Some(timer_id), ..old(self)@[id as int] }),
            ),
    {
        let n: usize = self.daemons.len();
        let idx = id as usize;
        let mut d = self.daemons[idx].clone();
        d.is_active = true;
        d.timer_id = Some(timer_id);
        self.daemons.set(idx, d);
        proof {
            assert(self@ =~= old(self)@.update(
                id as int,
                (DaemonView { is_active: true, timer_id: Some(timer_id), ..old(self)@[id as int] }),
            ));
        }
    }

    /// Mark a daemon inactive; the returned handle is the timer the
    /// host must cancel, if one was armed.
    pub fn stop(&mut self, id: u64) -> (cancelled: Option<u64>)
        requires
            old(self).wf(),
            id < old(self)@.len(),
        ensures
            final(self).wf(),
            cancelled == old(self)@[id as int].timer_id,
            final(self)@ == old(self)@.update(
                id as int,
                (DaemonView { is_active: false, timer_id: None, ..old(self)@[id as int] }),
            ),
    {
        let n: usize = self.daemons.len();
        let idx = id as usize;
        let mut d = self.daemons[idx].clone();
        let cancelled = d.timer_id;
        d.is_active = false;
        d.timer_id = None;
        self.daemons.set(idx, d);
        proof {
            assert(self@ =~= old(self)@.update(
                id as int,
                (DaemonView { is_active: false, timer_id: None, ..old(self)@[id as int] }),
            ));
        }
        cancelled
    }

    /// The ids of the daemons that should be re-armed after a restore,
    /// in increasing order, each exactly once.
    pub fn active_daemon_ids(&self) -> (r: Vec<u64>)
        requires
            self@.len() <= u64::MAX,
        ensures
            forall|k: int, l: int| 0 <= k < l < r@.len() ==> r@[k] < r@[l],
            forall|k: int|
                0 <= k < r@.len() ==> r@[k] < self@.len() && self@[(#[trigger] r@[k]) as int].is_active,
            forall|id: int|
                0 <= id < self@.len() && (#[trigger] self@[id]).is_active ==> r@.contains(id as u64),
    {
        let mut out: Vec<u64> = Vec::new();
        let mut i: usize = 0;
        while i < self.daemons.len()
            invariant
                i <= self@.len(),
                self@.len() <= u64::MAX,
                forall|k: int, l: int| 0 <= k < l < out@.len() ==> out@[k] < out@[l],
                forall|k: int|
                    0 <= k < out@.len() ==> out@[k] < i && self@[(#[trigger] out@[k]) as int].is_active,
                forall|id: int|
                    0 <= id < i && (#[trigger] self@[id]).is_active ==> out@.contains(id as u64),
            decreases self@.len() - i,
        {
            if self.daemons[i].is_active {
                let ghost out0 = out@;
                out.push(i as u64);
                proof {
                    assert forall|id: int|
                        0 <= id < i + 1 && (#[trigger] self@[id]).is_active implies out@.contains(
                        id as u64,
                    ) by {
                        if id < i {
                            assert(out0.contains(id as u64));
                            let k = choose|k: int| 0 <= k < out0.len() && out0[k] == id as u64;
                            assert(out@[k] == id as u64);
                        } else {
                            assert(out@[out@.len() - 1] == id as u64);
                        }
                    }
                }
            }
            i = i + 1;
        }
        out
    }
}

/// After a restore, the re-arm plan produced by `active_daemon_ids`
/// names every active daemon exactly once, so each such daemon ends
/// up holding exactly one fresh timer.
pub proof fn lemma_restore_arms_each_active_daemon_once(ids: Seq<u64>, daemons: Seq<DaemonView>)
    requires
        forall|k: int, l: int| 0 <= k < l < ids.len() ==> ids[k] < ids[l],
        forall|k: int|
            0 <= k < ids.len() ==> ids[k] < daemons.len() && daemons[(#[trigger] ids[k]) as int].is_active,
        forall|id: int|
            0 <= id < daemons.len() && (#[trigger] daemons[id]).is_active ==> ids.contains(
                id as u64,
            ),
    ensures
        forall|id: int|
            0 <= id < daemons.len() && (#[trigger] daemons[id]).is_active ==> exists|k: int|
                0 <= k < ids.len() && ids[k] == id as u64,
        forall|k: int, l: int|
            0 <= k < ids.len() && 0 <= l < ids.len() && ids[k] == ids[l] ==> k == l,
{
    assert forall|k: int, l: int|
        0 <= k < ids.len() && 0 <= l < ids.len() && ids[k] == ids[l] implies k == l by {
        if k < l {
            assert(ids[k] < ids[l]);
        }
        if l < k {
            assert(ids[l] < ids[k]);
        }
    }
}

/// The per-tick cycle charge of one listener run: a share of the
/// instructions spent plus two HTTP calls and the flat job cost.
pub fn listening_cycles_cost(instructions: u64) -> (r: Natural)
    ensures
        r@ == (instructions / 10) * 4 + crate::types::HTTP_OUTCALL_CYCLES_COST * 2 + 2_000_000,
{
    let share: u64 = (instructions / 10) * 4;
    let rest: u64 = crate::types::HTTP_OUTCALL_CYCLES_COST * 2 + 2_000_000;
    let a = Natural::from_u64(share);
    let b = Natural::from_u64(rest);
    a.add(&b)
}

/// Charge a daemon's creator for one listener tick and stop the daemon
/// when the remaining credit falls under the scheduling minimum. The
/// returned handle is the timer the host must cancel, if the daemon
/// was stopped while holding one.
pub fn collect_listening_cycles(
    balances: &mut BalancesStorage,
    daemons: &mut DaemonsStorage,
    id: u64,
    principal: &Principal,
    instructions: u64,
) -> (cancelled: Option<u64>)
    requires
        old(balances).wf(),
        old(balances)@.contains_key(principal@),
        old(daemons).wf(),
        id < old(daemons)@.len(),
    ensures
        final(balances).wf(),
        final(daemons).wf(),
        final(balances)@.contains_key(principal@),
        final(balances)@[principal@].cycles == charged_cycles(
            old(balances)@[principal@].cycles,
            listening_cycles_cost_spec(instructions),
        ),
        final(balances)@[principal@].cycles < MINIMUM_CYCLES ==> !final(daemons)@[id as int].is_active,
        final(balances)@[principal@].cycles >= MINIMUM_CYCLES ==> *final(daemons) == *old(daemons),
{
    let cost = listening_cycles_cost(instructions);
    let reduced = balances.reduce_cycles(principal, &cost);
    let minimum = Natural::from_u64(MINIMUM_CYCLES);
    let balance = match balances.get_balance(principal) {
        Some(b) => b,
        None => {
            proof {
                assert(false);
            }
            return None;
        },
    };
    if balance.cycles.lt(&minimum) {
        daemons.stop(id)
    } else {
        None
    }
}

/// The listener tick charge as a number.
pub open spec fn listening_cycles_cost_spec(instructions: u64) -> nat {
    ((instructions / 10) * 4 + crate::types::HTTP_OUTCALL_CYCLES_COST * 2 + 2_000_000) as nat
}

/// What remains of a credit after a charge that refuses to underflow.
pub open spec fn charged_cycles(cycles: nat, cost: nat) -> nat {
    if cost <= cycles {
        (cycles - cost) as nat
    } else {
        cycles
    }
}

} // verus!
