use vstd::prelude::*;
use crate::natural::Natural;
use crate::types::chains::ChainType;
use crate::types::daemons::{Daemon, DaemonView};
use crate::types::principal::Principal;
use crate::types::{Storage, MINIMUM_CYCLES};

verus! {

#[derive(Debug)]
pub enum DaemonsError {
    ChainNotFound,
    BalanceNotFound,
    InvalidCcmpContractAddress,
    ValidationErrors,
    DaemonNotFound,
    NotDaemonCreator,
    InsufficientCycles,
}

/// What a registration asks for.
pub struct RegisterDaemonArgs {
    pub listen_chain_id: u64,
    pub ccmp_contract: String,
    pub interval_in_secs: u64,
}

/// Is `c` a hex digit?
pub open spec fn is_hex_char(c: char) -> bool {
    ('0' <= c && c <= '9') || ('a' <= c && c <= 'f') || ('A' <= c && c <= 'F')
}

/// A well-formed receiver contract address for an EVM chain: the
/// marker and exactly 40 hex digits.
pub open spec fn is_evm_contract_chars(s: Seq<char>) -> bool {
    s.len() == 42 && s[0] == '0' && s[1] == 'x' && (forall|i: int|
        2 <= i < 42 ==> is_hex_char(#[trigger] s[i]))
}

/// Whether a contract address is acceptable for a chain's kind.
pub fn is_valid_ccmp_contract(ccmp_contract: &String, chain_type: ChainType) -> (r: bool)
    requires
        chain_type is Evm,
    ensures
        r == is_evm_contract_chars(ccmp_contract@),
{
    let s = ccmp_contract.as_str();
    let n = s.unicode_len();
    if n != 42 {
        return false;
    }
    if s.get_char(0) != '0' || s.get_char(1) != 'x' {
        return false;
    }
    let mut i: usize = 2;
    while i < 42
        invariant
            2 <= i <= 42,
            s@ == ccmp_contract@,
            s@.len() == 42,
            forall|k: int| 2 <= k < i ==> is_hex_char(#[trigger] s@[k]),
        decreases 42 - i,
    {
        let c = s.get_char(i);
        let hex = ('0' <= c && c <= '9') || ('a' <= c && c <= 'f') || ('A' <= c && c <= 'F');
        if !hex {
            return false;
        }
        i = i + 1;
    }
    true
}

/// The registration checks, in the order callers see their failures:
/// the polling period within bounds, a funded balance, a known
/// listening chain, a plausible receiver contract.
pub open spec fn register_error(s: crate::types::StorageView, caller: Seq<u8>, args_chain: u64, args_contract: Seq<char>, interval: u64) -> Option<DaemonsError> {
    if !(1 <= interval <= 3600) {
        Some(DaemonsError::ValidationErrors)
    } else if !s.balances.contains_key(caller) {
        Some(DaemonsError::BalanceNotFound)
    } else if s.balances[caller].cycles < MINIMUM_CYCLES {
        Some(DaemonsError::InsufficientCycles)
    } else if !(args_chain < s.chains_metadata.len() && s.chains_metadata[args_chain as int] is Some) {
        Some(DaemonsError::ChainNotFound)
    } else if !(s.chains_metadata[args_chain as int]->0.chain_type is Evm
        && is_evm_contract_chars(args_contract)) {
        Some(DaemonsError::InvalidCcmpContractAddress)
    } else {
        None
    }
}

/// Register a daemon for the caller and arm its first timer. The
/// period must lie between one second and one hour; the caller needs
/// a balance with enough credit, a registered listening chain and a
/// plausible receiver contract.
pub fn register_daemon(
    storage: &mut Storage,
    caller: &Principal,
    args: RegisterDaemonArgs,
    timer_id: u64,
) -> (r: Result<u64, DaemonsError>)
    requires
        old(storage).wf(),
        old(storage)@.daemons.len() < u64::MAX,
    ensures
        final(storage).wf(),
        ({
            let err = register_error(
                old(storage)@,
                caller@,
                args.listen_chain_id,
                args.ccmp_contract@,
                args.interval_in_secs,
            );
            &&& (r is Err) <==> (err is Some)
            &&& r matches Err(e) ==> e == err->0 && *final(storage) == *old(storage)
            &&& r matches Ok(id) ==> id == old(storage)@.daemons.len() && final(storage)@.daemons
                == old(storage)@.daemons.push(
                (DaemonView {
                    id: id,
                    creator: caller@,
                    listen_chain_id: args.listen_chain_id,
                    ccmp_contract: args.ccmp_contract@,
                    interval_secs: args.interval_in_secs,
                    is_active: true,
                    timer_id: Some(timer_id),
                }),
            ) && final(storage)@ == (crate::types::StorageView {
                daemons: final(storage)@.daemons,
                ..old(storage)@
            })
        }),
{
    if args.interval_in_secs < 1 || args.interval_in_secs > 3600 {
        return Err(DaemonsError::ValidationErrors);
    }
    let balance = match storage.balances_storage.get_balance(caller) {
        Some(b) => b,
        None => {
            return Err(DaemonsError::BalanceNotFound);
        },
    };
    let minimum = Natural::from_u64(MINIMUM_CYCLES);
    if balance.cycles.lt(&minimum) {
        return Err(DaemonsError::InsufficientCycles);
    }
    let metadata = match storage.chains_storage.get_chain_metadata(args.listen_chain_id) {
        Ok(m) => m,
        Err(_) => {
            return Err(DaemonsError::ChainNotFound);
        },
    };
    let contract_ok = match metadata.chain_type {
        ChainType::Evm => is_valid_ccmp_contract(&args.ccmp_contract, ChainType::Evm),
        ChainType::Unknown => false,
    };
    if !contract_ok {
        return Err(DaemonsError::InvalidCcmpContractAddress);
    }
    let id = storage.daemon_storage.add_daemon(
        args.listen_chain_id,
        args.ccmp_contract,
        args.interval_in_secs,
        caller.clone(),
    );
    storage.daemon_storage.start(id, timer_id);
    proof {
        assert(storage@.daemons =~= old(storage)@.daemons.push(
            (DaemonView {
                id: id,
                creator: caller@,
                listen_chain_id: args.listen_chain_id,
                ccmp_contract: args.ccmp_contract@,
                interval_secs: args.interval_in_secs,
                is_active: true,
                timer_id: Some(timer_id),
            }),
        ));
    }
    Ok(id)
}

/// The caller's view of one daemon: owners see their own, nobody else
/// sees anything.
pub fn get_daemon(storage: &Storage, caller: &Principal, id: u64) -> (r: Option<Daemon>)
    ensures
        (r is Some) <==> (id < storage@.daemons.len() && storage@.daemons[id as int].creator
            == caller@),
        r is Some ==> r->Some_0@ == storage@.daemons[id as int],
{
    match storage.daemon_storage.get_daemon(id) {
        Some(d) => {
            if &d.creator == caller {
                Some(d)
            } else {
                None
            }
        },
        None => None,
    }
}

/// All daemons the caller created, in id order.
#[verifier::loop_isolation(false)]
pub fn get_daemons(storage: &Storage, caller: &Principal) -> (r: Vec<Daemon>)
    requires
        storage.wf(),
    ensures
        forall|k: int|
            0 <= k < r@.len() ==> (#[trigger] r@[k])@.creator == caller@ && r@[k]@.id
                < storage@.daemons.len() && storage@.daemons[r@[k]@.id as int] == r@[k]@,
        forall|i: int|
            0 <= i < storage@.daemons.len() && (#[trigger] storage@.daemons[i]).creator == caller@
                ==> exists|k: int| 0 <= k < r@.len() && (#[trigger] r@[k])@.id == i,
    {
    let mut out: Vec<Daemon> = Vec::new();
    let mut i: usize = 0;
    let n = storage.daemon_storage.daemons.len();
    while i < n
        invariant
            i <= n,
            n == storage@.daemons.len(),
            forall|k: int|
                0 <= k < out@.len() ==> (#[trigger] out@[k])@.creator == caller@ && out@[k]@.id
                    < storage@.daemons.len() && storage@.daemons[out@[k]@.id as int] == out@[k]@,
            forall|d: int|
                0 <= d < i && (#[trigger] storage@.daemons[d]).creator == caller@ ==> exists|k: int|
                    0 <= k < out@.len() && (#[trigger] out@[k])@.id == d,
        decreases n - i,
    {
        let d = &storage.daemon_storage.daemons[i];
        if &d.creator == caller {
            let ghost out0 = out@;
            out.push(d.clone());
            proof {
                assert(out@[out@.len() - 1]@ == storage@.daemons[i as int]);
                assert(storage@.daemons[i as int].id == i);
                assert forall|dd: int|
                    0 <= dd < i + 1 && (#[trigger] storage@.daemons[dd]).creator
                        == caller@ implies exists|k: int|
                    0 <= k < out@.len() && (#[trigger] out@[k])@.id == dd by {
                    if dd < i {
                        let k0 = choose|k: int|
                            0 <= k < out0.len() && (#[trigger] out0[k])@.id == dd;
                        assert(out@[k0]@.id == dd);
                    } else {
                        assert(out@[out@.len() - 1]@.id == dd);
                    }
                }
            }
        }
        i = i + 1;
    }
    out
}

/// Re-arm a daemon the caller owns, after checking the balance still
/// carries enough credit.
pub fn start_daemon(storage: &mut Storage, caller: &Principal, id: u64, timer_id: u64) -> (r:
    Result<(), DaemonsError>)
    requires
        old(storage).wf(),
    ensures
        final(storage).wf(),
        !old(storage)@.balances.contains_key(caller@) ==> (r matches Err(e) && e
            is BalanceNotFound && *final(storage) == *old(storage)),
        (old(storage)@.balances.contains_key(caller@) && old(storage)@.balances[caller@].cycles
            < MINIMUM_CYCLES) ==> (r matches Err(e) && e is InsufficientCycles && *final(storage)
            == *old(storage)),
        (old(storage)@.balances.contains_key(caller@) && old(storage)@.balances[caller@].cycles
            >= MINIMUM_CYCLES && id >= old(storage)@.daemons.len()) ==> (r matches Err(e) && e
            is DaemonNotFound && *final(storage) == *old(storage)),
        (old(storage)@.balances.contains_key(caller@) && old(storage)@.balances[caller@].cycles
            >= MINIMUM_CYCLES && id < old(storage)@.daemons.len()
            && old(storage)@.daemons[id as int].creator != caller@) ==> (r matches Err(e) && e
            is NotDaemonCreator && *final(storage) == *old(storage)),
        (old(storage)@.balances.contains_key(caller@) && old(storage)@.balances[caller@].cycles
            >= MINIMUM_CYCLES && id < old(storage)@.daemons.len()
            && old(storage)@.daemons[id as int].creator == caller@) ==> (r is Ok && final(storage)@.daemons == old(storage)@.daemons.update(
            id as int,
            (DaemonView {
                is_active: true,
                timer_id: Some(timer_id),
                ..old(storage)@.daemons[id as int]
            }),
        )),
{
    let balance = match storage.balances_storage.get_balance(caller) {
        Some(b) => b,
        None => {
            return Err(DaemonsError::BalanceNotFound);
        },
    };
    let minimum = Natural::from_u64(MINIMUM_CYCLES);
    if balance.cycles.lt(&minimum) {
        return Err(DaemonsError::InsufficientCycles);
    }
    let daemon = match storage.daemon_storage.get_daemon(id) {
        Some(d) => d,
        None => {
            return Err(DaemonsError::DaemonNotFound);
        },
    };
    if &daemon.creator != caller {
        return Err(DaemonsError::NotDaemonCreator);
    }
    storage.daemon_storage.start(id, timer_id);
    Ok(())
}

/// Stop a daemon the caller owns; the returned handle is the timer
/// the host must cancel, if one was armed.
pub fn stop_daemon(storage: &mut Storage, caller: &Principal, id: u64) -> (r: Result<
    Option<u64>,
    DaemonsError,
>)
    requires
        old(storage).wf(),
    ensures
        final(storage).wf(),
        id >= old(storage)@.daemons.len() ==> (r matches Err(e) && e is DaemonNotFound && *final(storage) == *old(storage)),
        (id < old(storage)@.daemons.len() && old(storage)@.daemons[id as int].creator != caller@)
            ==> (r matches Err(e) && e is NotDaemonCreator && *final(storage) == *old(storage)),
        (id < old(storage)@.daemons.len() && old(storage)@.daemons[id as int].creator == caller@)
            ==> (r matches Ok(cancelled) && cancelled == old(storage)@.daemons[id as int].timer_id && final(storage)@.daemons == old(storage)@.daemons.update(
            id as int,
            (DaemonView { is_active: false, timer_id: None, ..old(storage)@.daemons[id as int] }),
        )),
{
    let daemon = match storage.daemon_storage.get_daemon(id) {
        Some(d) => d,
        None => {
            return Err(DaemonsError::DaemonNotFound);
        },
    };
    if &daemon.creator != caller {
        return Err(DaemonsError::NotDaemonCreator);
    }
    Ok(storage.daemon_storage.stop(id))
}

} // verus!
