use vstd::prelude::*;
use crate::natural::Natural;
use crate::types::balances::{Balance, BalanceView, ChainEntryView};
use crate::types::principal::Principal;
use crate::types::{Storage, StorageView};
use crate::utils::relay_address_of;
use crate::types::pending_tx::{TransactionInfo, TransactionReceipt};

verus! {

#[derive(Debug)]
pub enum BalancesError {
    ChainTypeIsNotEVM,
    BalanceDoesNotExist,
    InvalidPublicKey,
    TxDoesNotExist,
    TxIsNotFinalized,
    TxWithoutDestination,
    TxDestinationIsNotBalanceAddress,
    NonceAlreadyUsed,
}

/// Give the caller a balance under the public key the host derived
/// for them; a caller who already has one keeps it and gets its key
/// back.
pub fn add_balance(storage: &mut Storage, caller: &Principal, derived_key: String) -> (r: String)
    requires
        old(storage).wf(),
    ensures
        final(storage).wf(),
        old(storage)@.balances.contains_key(caller@) ==> (r@
            == old(storage)@.balances[caller@].public_key && *final(storage) == *old(storage)),
        !old(storage)@.balances.contains_key(caller@) ==> (r@ == derived_key@ && final(storage)@
            == (StorageView {
            balances: old(storage)@.balances.insert(
                caller@,
                (BalanceView { public_key: derived_key@, cycles: 0, chains_data: Map::empty() }),
            ),
            ..old(storage)@
        })),
{
    match storage.balances_storage.get_balance(caller) {
        Some(b) => b.public_key,
        None => {
            storage.balances_storage.add(caller, derived_key.clone());
            proof {
                assert(storage@ == (StorageView { balances: storage@.balances, ..old(storage)@ }));
            }
            derived_key
        },
    }
}

/// Accept attached compute credit for the caller, creating the
/// balance under the derived key when none exists yet.
pub fn add_cycles(storage: &mut Storage, caller: &Principal, cycles: &Natural, derived_key: String)
    requires
        old(storage).wf(),
    ensures
        final(storage).wf(),
        old(storage)@.balances.contains_key(caller@) ==> final(storage)@ == (StorageView {
            balances: old(storage)@.balances.insert(
                caller@,
                (BalanceView {
                    cycles: old(storage)@.balances[caller@].cycles + cycles@,
                    ..old(storage)@.balances[caller@]
                }),
            ),
            ..old(storage)@
        }),
        !old(storage)@.balances.contains_key(caller@) ==> final(storage)@ == (StorageView {
            balances: old(storage)@.balances.insert(
                caller@,
                (BalanceView { public_key: derived_key@, cycles: cycles@, chains_data: Map::empty() }),
            ),
            ..old(storage)@
        }),
{
    storage.balances_storage.add_cycles(caller, cycles, derived_key);
    proof {
        assert(storage@ == (StorageView { balances: storage@.balances, ..old(storage)@ }));
    }
}

/// Why a top-up is refused, if it is: the checks run in this order
/// against the receipt and transaction the host fetched by hash.
pub open spec fn top_up_error(
    s: StorageView,
    caller: Seq<u8>,
    chain_id: u64,
    receipt: Option<TransactionReceipt>,
    tx: Option<TransactionInfo>,
) -> Option<BalancesError> {
    if !s.balances.contains_key(caller) {
        Some(BalancesError::BalanceDoesNotExist)
    } else if !(chain_id < s.evm_chains.len() && s.evm_chains[chain_id as int] is Some) {
        Some(BalancesError::ChainTypeIsNotEVM)
    } else if receipt is None {
        Some(BalancesError::TxDoesNotExist)
    } else if receipt->Some_0.status != Some(1u64) {
        Some(BalancesError::TxIsNotFinalized)
    } else if relay_address_of(s.balances[caller].public_key) is None {
        Some(BalancesError::InvalidPublicKey)
    } else if receipt->Some_0.to is None {
        Some(BalancesError::TxWithoutDestination)
    } else if receipt->Some_0.to->Some_0@ != relay_address_of(
        s.balances[caller].public_key,
    )->Some_0 {
        Some(BalancesError::TxDestinationIsNotBalanceAddress)
    } else if tx is None {
        Some(BalancesError::TxDoesNotExist)
    } else if s.balances[caller].chains_data.contains_key(chain_id)
        && s.balances[caller].chains_data[chain_id].nonces.contains(tx->Some_0.nonce) {
        Some(BalancesError::NonceAlreadyUsed)
    } else {
        None
    }
}

/// Credit the caller's token balance on an EVM chain from a top-up
/// transaction the host looked up by hash: the transaction must be
/// final, paid to the caller's derived address, and its source-chain
/// nonce must never have been consumed before.
pub fn add_tokens_to_evm_chain(
    storage: &mut Storage,
    caller: &Principal,
    chain_id: u64,
    receipt: &Option<TransactionReceipt>,
    tx: &Option<TransactionInfo>,
) -> (r: Result<(), BalancesError>)
    requires
        old(storage).wf(),
    ensures
        final(storage).wf(),
        ({
            let err = top_up_error(old(storage)@, caller@, chain_id, *receipt, *tx);
            &&& (r is Err) <==> (err is Some)
            &&& r matches Err(e) ==> e == err->0 && *final(storage) == *old(storage)
            &&& r is Ok ==> final(storage)@.balances == credited_balances(
                old(storage)@.balances,
                caller@,
                chain_id,
                tx->Some_0.value@,
                tx->Some_0.nonce,
            ) && final(storage)@ == (StorageView {
                balances: final(storage)@.balances,
                ..old(storage)@
            })
        }),
{
    let balance = match storage.balances_storage.get_balance(caller) {
        Some(b) => b,
        None => {
            return Err(BalancesError::BalanceDoesNotExist);
        },
    };
    let evm_chain = storage.chains_storage.evm_chains_storage.get_chain(chain_id);
    if evm_chain.is_none() {
        return Err(BalancesError::ChainTypeIsNotEVM);
    }
    let rc = match receipt {
        Some(rc) => rc,
        None => {
            return Err(BalancesError::TxDoesNotExist);
        },
    };
    let finalized = match rc.status {
        Some(s) => s == 1,
        None => false,
    };
    if !finalized {
        return Err(BalancesError::TxIsNotFinalized);
    }
    let address = match crate::utils::address_of_pubkey_hex(&balance.public_key) {
        Some(a) => a,
        None => {
            return Err(BalancesError::InvalidPublicKey);
        },
    };
    let to = match &rc.to {
        Some(t) => t,
        None => {
            return Err(BalancesError::TxWithoutDestination);
        },
    };
    if !crate::utils::signing::bytes_eq(to, &address) {
        return Err(BalancesError::TxDestinationIsNotBalanceAddress);
    }
    let info = match tx {
        Some(t) => t,
        None => {
            return Err(BalancesError::TxDoesNotExist);
        },
    };
    let credited = storage.balances_storage.add_tokens_on_chain(
        caller,
        chain_id,
        &info.value,
        info.nonce,
    );
    if !credited {
        proof {
            assert(*storage == *old(storage));
        }
        return Err(BalancesError::NonceAlreadyUsed);
    }
    proof {
        assert(storage@ == (StorageView { balances: storage@.balances, ..old(storage)@ }));
    }
    Ok(())
}

/// A ledger after a verified top-up: the tokens grow by the paid
/// value and the nonce is recorded, in a fresh entry when the chain
/// had none.
pub open spec fn credited_balances(
    m: Map<Seq<u8>, BalanceView>,
    p: Seq<u8>,
    chain_id: u64,
    value: nat,
    nonce: u64,
) -> Map<Seq<u8>, BalanceView> {
    if m[p].chains_data.contains_key(chain_id) {
        m.insert(
            p,
            crate::types::balances::with_entry(
                m[p],
                chain_id,
                (ChainEntryView {
                    tokens: m[p].chains_data[chain_id].tokens + value,
                    nonces: m[p].chains_data[chain_id].nonces.push(nonce),
                    ..m[p].chains_data[chain_id]
                }),
            ),
        )
    } else {
        m.insert(
            p,
            crate::types::balances::with_entry(
                m[p],
                chain_id,
                (ChainEntryView { tokens: value, nonces: seq![nonce], tx_count: 0, last_block: 0 }),
            ),
        )
    }
}

/// The caller's balance, if one exists.
pub fn get_balance(storage: &Storage, caller: &Principal) -> (r: Option<Balance>)
    requires
        storage.wf(),
    ensures
        (r is Some) <==> storage@.balances.contains_key(caller@),
        r is Some ==> r->Some_0@ == storage@.balances[caller@],
{
    storage.balances_storage.get_balance(caller)
}

} // verus!
