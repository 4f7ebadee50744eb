use vstd::prelude::*;
use crate::natural::Natural;
use crate::types::balances::{debited_entry, with_entry, BalanceView, ChainEntryView};
use crate::types::daemons::charged_cycles;
use crate::types::messages::MessageView;
use crate::types::pending_tx::{PendingTransaction, TransactionReceipt};
use crate::types::principal::Principal;
use crate::types::{
    balance_of, creator_of, drain_up_to, entry_of, min_int, Storage, StorageView, BATCH_SIZE,
    HTTP_OUTCALL_CYCLES_COST, MINIMUM_CYCLES,
};

verus! {

#[derive(Debug)]
pub enum CheckerError {
    UnsupportedChainType,
}

/// Take the next batch of tracked transactions off the queue, oldest
/// first, at most the batch bound.
pub fn take_pending_batch(storage: &mut Storage) -> (r: Vec<PendingTransaction>)
    ensures
        r@.map_values(|t: PendingTransaction| t@) == old(storage)@.pending.take(
            min_int(BATCH_SIZE as int, old(storage)@.pending.len() as int),
        ),
        final(storage)@ == (StorageView {
            pending: old(storage)@.pending.skip(
                min_int(BATCH_SIZE as int, old(storage)@.pending.len() as int),
            ),
            ..old(storage)@
        }),
{
    let r = drain_up_to(&mut storage.pending_txs_storage.0, BATCH_SIZE as usize);
    proof {
        let n = min_int(BATCH_SIZE as int, old(storage)@.pending.len() as int);
        assert(r@.map_values(|t: PendingTransaction| t@) =~= old(storage)@.pending.take(n));
        assert(storage@.pending =~= old(storage)@.pending.skip(n));
        assert(storage@ == (StorageView { pending: storage@.pending, ..old(storage)@ }));
    }
    r
}

/// A state whose creator paid a debit on a message's destination
/// chain.
pub open spec fn settled_storage(s: StorageView, m: MessageView, debit: nat) -> StorageView {
    StorageView {
        balances: s.balances.insert(
            creator_of(s, m),
            with_entry(balance_of(s, m), m.to_chain_id, debited_entry(entry_of(s, m), debit)),
        ),
        ..s
    }
}

/// Settle one tracked transaction against the receipt the host
/// fetched. A drained transaction never vanishes: without a receipt
/// it goes back on the queue; with one, its creator's token balance
/// on the destination chain is debited exactly the gas used times the
/// recorded gas price and the transaction is dropped; a debit past
/// zero is refused before anything changes and the transaction goes
/// back on the queue as well.
pub fn check_evm(
    storage: &mut Storage,
    tx: PendingTransaction,
    receipt: &Option<TransactionReceipt>,
) -> (done: bool)
    requires
        old(storage).wf(),
        tx@.message.daemon_id < old(storage)@.daemons.len(),
        old(storage)@.balances.contains_key(creator_of(old(storage)@, tx@.message)),
        balance_of(old(storage)@, tx@.message).chains_data.contains_key(tx@.message.to_chain_id),
        receipt matches Some(rc) ==> rc.gas_used is Some,
    ensures
        final(storage).wf(),
        receipt is None ==> (!done && final(storage)@ == (StorageView {
            pending: old(storage)@.pending.push(tx@),
            ..old(storage)@
        })),
        receipt matches Some(rc) ==> ((rc.gas_used->Some_0@ * tx@.gas_price <= entry_of(
            old(storage)@,
            tx@.message,
        ).tokens ==> (done && final(storage)@ == settled_storage(
            old(storage)@,
            tx@.message,
            rc.gas_used->Some_0@ * tx@.gas_price,
        ))) && (rc.gas_used->Some_0@ * tx@.gas_price > entry_of(old(storage)@, tx@.message).tokens
            ==> (!done && final(storage)@ == (StorageView {
            pending: old(storage)@.pending.push(tx@),
            ..old(storage)@
        })))),
{
    let daemon = match storage.daemon_storage.get_daemon(tx.message.daemon_id) {
        Some(d) => d,
        None => {
            proof {
                assert(false);
            }
            return false;
        },
    };
    match receipt {
        None => {
            storage.pending_txs_storage.add(tx);
            proof {
                assert(storage@ == (StorageView { pending: storage@.pending, ..old(storage)@ }));
            }
            false
        },
        Some(rc) => {
            let gas_used = match &rc.gas_used {
                Some(g) => g,
                None => {
                    proof {
                        assert(false);
                    }
                    return false;
                },
            };
            let debit = gas_used.mul(&tx.gas_price);
            let to_chain = tx.message.to_chain_id;
            let reduced = storage.balances_storage.reduce_tokens_on_chain(
                &daemon.creator,
                to_chain,
                &debit,
            );
            if reduced {
                proof {
                    assert(storage@ == (StorageView { balances: storage@.balances, ..old(storage)@ }));
                }
                true
            } else {
                storage.pending_txs_storage.add(tx);
                proof {
                    assert(storage@ == (StorageView { pending: storage@.pending, ..old(storage)@ }));
                }
                false
            }
        },
    }
}

/// The per-tick cycle charge of one checker run: one HTTP call plus
/// the flat job cost.
pub open spec fn checking_cycles_cost_spec() -> nat {
    (HTTP_OUTCALL_CYCLES_COST + 2_000_000) as nat
}

/// Charge a daemon's creator for one checker tick and stop the daemon
/// when the remaining credit falls under the scheduling minimum. The
/// returned handle is the timer the host must cancel, if the daemon
/// was stopped while holding one.
pub fn collect_checking_cycles(storage: &mut Storage, daemon_id: u64, principal: &Principal) -> (cancelled:
    Option<u64>)
    requires
        old(storage).wf(),
        old(storage)@.balances.contains_key(principal@),
        daemon_id < old(storage)@.daemons.len(),
    ensures
        final(storage).wf(),
        final(storage)@.balances.contains_key(principal@),
        final(storage)@.balances[principal@].cycles == charged_cycles(
            old(storage)@.balances[principal@].cycles,
            checking_cycles_cost_spec(),
        ),
        final(storage)@.balances[principal@].cycles < MINIMUM_CYCLES
            ==> !(final(storage)@.daemons[daemon_id as int].is_active),
        final(storage)@.balances[principal@].cycles >= MINIMUM_CYCLES ==> final(storage)@.daemons
            == old(storage)@.daemons,
{
    let cost = Natural::from_u64(HTTP_OUTCALL_CYCLES_COST + 2_000_000);
    let reduced = storage.balances_storage.reduce_cycles(principal, &cost);
    let minimum = Natural::from_u64(MINIMUM_CYCLES);
    let balance = match storage.balances_storage.get_balance(principal) {
        Some(b) => b,
        None => {
            proof {
                assert(false);
            }
            return None;
        },
    };
    if balance.cycles.lt(&minimum) {
        storage.daemon_storage.stop(daemon_id)
    } else {
        None
    }
}

} // verus!
