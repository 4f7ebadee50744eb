use vstd::prelude::*;
use crate::natural::limbs64_value;
use crate::types::chains::{ChainMetadata, ChainsStorage, ChainType};

verus! {

#[derive(Debug)]
pub enum EvmChainError {
    InvalidChainId(String),
    EvmChainNotFound,
}

/// An EVM chain as ghost data.
pub struct EvmChainView {
    pub name: Seq<char>,
    pub id: u64,
    pub rpc: Seq<char>,
}

/// An EVM chain the relay can reach: its handle is the dense id, its
/// native 256-bit chain id must fit 64 bits.
pub struct EvmChain {
    pub name: String,
    pub id: u64,
    pub rpc: String,
}

impl View for EvmChain {
    type V = EvmChainView;

    open spec fn view(&self) -> EvmChainView {
        EvmChainView { name: self.name@, id: self.id, rpc: self.rpc@ }
    }
}

impl Clone for EvmChain {
    fn clone(&self) -> (r: Self)
        ensures
            r == *self,
    {
        EvmChain { name: self.name.clone(), id: self.id, rpc: self.rpc.clone() }
    }
}

proof fn lemma_limbs64_zeros(s: Seq<u64>)
    requires
        forall|i: int| 0 <= i < s.len() ==> s[i] == 0,
    ensures
        limbs64_value(s) == 0,
    decreases s.len(),
{
    if s.len() > 0 {
        lemma_limbs64_zeros(s.skip(1));
    }
}

proof fn lemma_limbs64_nonzero(s: Seq<u64>, i: int)
    requires
        0 <= i < s.len(),
        s[i] != 0,
    ensures
        limbs64_value(s) >= 1,
    decreases i,
{
    if i == 0 {
    } else {
        lemma_limbs64_nonzero(s.skip(1), i - 1);
    }
}

impl EvmChain {
    /// Accept a chain whose native id, handed over as the little-endian
    /// 64-bit limbs of the 256-bit value its RPC returns, fits 64 bits;
    /// reject any larger value.
    pub fn new(name: String, rpc: String, native_chain_id: &Vec<u64>) -> (r: Result<
        Self,
        EvmChainError,
    >)
        ensures
            (r is Ok) <==> limbs64_value(native_chain_id@) <= u64::MAX,
            r is Ok ==> r->Ok_0.id == limbs64_value(native_chain_id@) && r->Ok_0.name == name
                && r->Ok_0.rpc == rpc,
            r is Err ==> r->Err_0 is InvalidChainId,
    {
        let mut i: usize = 1;
        while i < native_chain_id.len()
            invariant
                1 <= i,
                forall|k: int| 1 <= k < i ==> native_chain_id@[k] == 0,
            decreases native_chain_id@.len() - i,
        {
            if native_chain_id[i] != 0 {
                proof {
                    lemma_limbs64_nonzero(native_chain_id@.skip(1), i - 1);
                    assert(native_chain_id@.skip(1)[i - 1] == native_chain_id@[i as int]);
                    assert(limbs64_value(native_chain_id@) >= 0x1_0000_0000_0000_0000);
                }
                return Err(EvmChainError::InvalidChainId(String::from_str(
                    "chain id is too large",
                )));
            }
            i = i + 1;
        }
        let id: u64 = if native_chain_id.len() > 0 {
            native_chain_id[0]
        } else {
            0
        };
        proof {
            if native_chain_id@.len() > 0 {
                lemma_limbs64_zeros(native_chain_id@.skip(1));
            }
        }
        Ok(EvmChain { name, id, rpc })
    }
}

/// The typed clients of the registered EVM chains, one slot per id.
pub struct EvmChainsStorage(pub Vec<Option<EvmChain>>);

impl EvmChainsStorage {
    /// Register an EVM chain: the next dense id points at its metadata
    /// and its client.
    pub fn add(storage: &mut ChainsStorage, evm_chain: EvmChain) -> (id: u64)
        requires
            old(storage).wf(),
            old(storage).spec_chains_count() < u64::MAX,
        ensures
            final(storage).wf(),
            id == old(storage).spec_chains_count(),
            final(storage).chains_metadata@ == old(storage).chains_metadata@.push(
                Some(ChainMetadata { name: evm_chain.name, chain_type: ChainType::Evm }),
            ),
            final(storage).evm_chains_storage.0@ == old(storage).evm_chains_storage.0@.push(
                Some(evm_chain),
            ),
    {
        let id: u64 = storage.chains_metadata.len() as u64;
        let metadata = ChainMetadata::new(evm_chain.name.clone(), ChainType::Evm);
        storage.chains_metadata.push(Some(metadata));
        storage.evm_chains_storage.0.push(Some(evm_chain));
        id
    }

    /// The client registered under an id, when it is an EVM chain.
    pub fn get_chain(&self, id: u64) -> (r: Option<EvmChain>)
        ensures
            (r is Some) <==> (id < self.0@.len() && self.0@[id as int] is Some),
            r is Some ==> r->Some_0 == self.0@[id as int]->0,
    {
        if id >= self.0.len() as u64 {
            return None;
        }
        match &self.0[id as usize] {
            Some(c) => Some(c.clone()),
            None => None,
        }
    }

    /// Point a chain's client at another RPC endpoint.
    pub fn update_rpc(&mut self, id: u64, rpc: String) -> (r: Result<(), EvmChainError>)
        ensures
            (r is Ok) <==> (id < old(self).0@.len() && old(self).0@[id as int] is Some),
            r is Ok ==> final(self).0@ == old(self).0@.update(
                id as int,
                Some(EvmChain { rpc: rpc, ..old(self).0@[id as int]->0 }),
            ),
            r is Err ==> *final(self) == *old(self) && r->Err_0 is EvmChainNotFound,
    {
        if id >= self.0.len() as u64 {
            return Err(EvmChainError::EvmChainNotFound);
        }
        let idx = id as usize;
        match &self.0[idx] {
            Some(c) => {
                let updated = EvmChain { name: c.name.clone(), id: c.id, rpc };
                self.0.set(idx, Some(updated));
                Ok(())
            },
            None => Err(EvmChainError::EvmChainNotFound),
        }
    }
}

} // verus!
