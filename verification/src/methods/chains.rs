use vstd::prelude::*;
use crate::natural::limbs64_value;
use crate::types::chains::{ChainMetadata, ChainType};
use crate::types::evm_chains::{EvmChain, EvmChainError, EvmChainsStorage};
use crate::types::Storage;
use crate::types::StorageView;

verus! {

/// Register an EVM chain whose native id the host just fetched, given
/// as the little-endian 64-bit limbs of the 256-bit value; an id past
/// 64 bits is refused.
pub fn add_evm_chain(
    storage: &mut Storage,
    name: String,
    rpc: String,
    native_chain_id: &Vec<u64>,
) -> (r: Result<u64, EvmChainError>)
    requires
        old(storage).wf(),
        old(storage)@.chains_metadata.len() < u64::MAX,
    ensures
        final(storage).wf(),
        (r is Ok) <==> limbs64_value(native_chain_id@) <= u64::MAX,
        r is Err ==> r->Err_0 is InvalidChainId && *final(storage) == *old(storage),
        r matches Ok(id) ==> id == old(storage)@.chains_metadata.len()
            && final(storage)@.chains_metadata == old(storage)@.chains_metadata.push(
            Some(
                (crate::types::chains::ChainMetadataView {
                    name: name@,
                    chain_type: ChainType::Evm,
                }),
            ),
        ) && final(storage)@.evm_chains == old(storage)@.evm_chains.push(
            Some(
                (crate::types::evm_chains::EvmChainView {
                    name: name@,
                    id: limbs64_value(native_chain_id@) as u64,
                    rpc: rpc@,
                }),
            ),
        ) && final(storage)@ == (StorageView {
            chains_metadata: final(storage)@.chains_metadata,
            evm_chains: final(storage)@.evm_chains,
            ..old(storage)@
        }),
{
    let evm_chain = match EvmChain::new(name, rpc, native_chain_id) {
        Ok(c) => c,
        Err(e) => {
            return Err(e);
        },
    };
    let id = EvmChainsStorage::add(&mut storage.chains_storage, evm_chain);
    proof {
        assert(storage@.chains_metadata =~= old(storage)@.chains_metadata.push(
            Some(storage.chains_storage.chains_metadata@.last()->0@),
        ));
        assert(storage@.evm_chains =~= old(storage)@.evm_chains.push(
            Some(storage.chains_storage.evm_chains_storage.0@.last()->0@),
        ));
        assert(storage@ == (StorageView {
            chains_metadata: storage@.chains_metadata,
            evm_chains: storage@.evm_chains,
            ..old(storage)@
        }));
    }
    Ok(id)
}

/// Forget a chain; only EVM chains can be removed.
pub fn remove_chain(storage: &mut Storage, id: u64) -> (r: Result<
    (),
    crate::types::chains::ChainsStorageError,
>)
    requires
        old(storage).wf(),
    ensures
        final(storage).wf(),
        (id >= old(storage)@.chains_metadata.len() || old(storage)@.chains_metadata[id as int]
            is None) ==> (r matches Err(e) && e is ChainNotFound && *final(storage) == *old(
            storage,
        )),
        id < old(storage)@.chains_metadata.len() ==> (old(
            storage,
        )@.chains_metadata[id as int] matches Some(m) ==> (if m.chain_type is Evm {
            &&& r is Ok
            &&& final(storage)@ == (StorageView {
                chains_metadata: old(storage)@.chains_metadata.update(
                    id as int,
                    Option::<crate::types::chains::ChainMetadataView>::None,
                ),
                evm_chains: old(storage)@.evm_chains.update(
                    id as int,
                    Option::<crate::types::evm_chains::EvmChainView>::None,
                ),
                ..old(storage)@
            })
        } else {
            r matches Err(e) && e is UnknownChainType && *final(storage) == *old(storage)
        })),
{
    let r = storage.chains_storage.remove_chain(id);
    proof {
        if r is Ok {
            assert(storage@.chains_metadata =~= old(storage)@.chains_metadata.update(
                id as int,
                Option::<crate::types::chains::ChainMetadataView>::None,
            ));
            assert(storage@.evm_chains =~= old(storage)@.evm_chains.update(
                id as int,
                Option::<crate::types::evm_chains::EvmChainView>::None,
            ));
            assert(storage@ == (StorageView {
                chains_metadata: storage@.chains_metadata,
                evm_chains: storage@.evm_chains,
                ..old(storage)@
            }));
        }
    }
    r
}

/// The metadata registered under an id, as callers query it.
pub fn get_chain_metadata(storage: &Storage, id: u64) -> (r: Option<ChainMetadata>)
    ensures
        (r is Some) <==> (id < storage@.chains_metadata.len()
            && storage@.chains_metadata[id as int] is Some),
        r is Some ==> Some(r->Some_0@) == storage@.chains_metadata[id as int],
{
    match storage.chains_storage.get_chain_metadata(id) {
        Ok(m) => Some(m),
        Err(_) => None,
    }
}

/// Point a chain's client at another RPC endpoint.
pub fn update_evm_chain_rpc(storage: &mut Storage, id: u64, rpc: String) -> (r: Result<
    (),
    EvmChainError,
>)
    requires
        old(storage).wf(),
    ensures
        final(storage).wf(),
        (r is Ok) <==> (id < old(storage)@.evm_chains.len() && old(storage)@.evm_chains[id as int]
            is Some),
        r is Ok ==> final(storage)@ == (StorageView {
            evm_chains: old(storage)@.evm_chains.update(
                id as int,
                Some(
                    (crate::types::evm_chains::EvmChainView {
                        rpc: rpc@,
                        ..old(storage)@.evm_chains[id as int]->0
                    }),
                ),
            ),
            ..old(storage)@
        }),
        r is Err ==> r->Err_0 is EvmChainNotFound && *final(storage) == *old(storage),
{
    let r = storage.chains_storage.evm_chains_storage.update_rpc(id, rpc);
    proof {
        if r is Ok {
            assert(storage@.evm_chains =~= old(storage)@.evm_chains.update(
                id as int,
                Some(
                    (crate::types::evm_chains::EvmChainView {
                        rpc: storage.chains_storage.evm_chains_storage.0@[id as int]->0.rpc@,
                        ..old(storage)@.evm_chains[id as int]->0
                    }),
                ),
            ));
            assert(storage@ == (StorageView { evm_chains: storage@.evm_chains, ..old(storage)@ }));
        }
    }
    r
}

} // verus!
