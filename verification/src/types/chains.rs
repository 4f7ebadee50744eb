use vstd::prelude::*;
use crate::types::evm_chains::EvmChainsStorage;

verus! {

#[derive(Debug, PartialEq, Eq, Structural, Clone, Copy)]
pub enum ChainsStorageError {
    UnknownChainType,
    ChainNotFound,
}

/// The kind of chain behind an id; only EVM chains are relayed today.
#[derive(Debug, PartialEq, Eq, Structural, Clone, Copy)]
pub enum ChainType {
    Unknown,
    Evm,
}

/// Chain metadata as ghost data.
pub struct ChainMetadataView {
    pub name: Seq<char>,
    pub chain_type: ChainType,
}

/// What the relay records about a chain besides its typed client.
pub struct ChainMetadata {
    pub name: String,
    pub chain_type: ChainType,
}

impl View for ChainMetadata {
    type V = ChainMetadataView;

    open spec fn view(&self) -> ChainMetadataView {
        ChainMetadataView { name: self.name@, chain_type: self.chain_type }
    }
}

impl Clone for ChainMetadata {
    fn clone(&self) -> (r: Self)
        ensures
            r == *self,
    {
        ChainMetadata { name: self.name.clone(), chain_type: self.chain_type }
    }
}

impl ChainMetadata {
    pub fn new(name: String, chain_type: ChainType) -> (r: Self)
        ensures
            r.name == name,
            r.chain_type == chain_type,
    {
        ChainMetadata { name, chain_type }
    }
}

/// The registered chains: slot `i` belongs to chain id `i`, emptied
/// when the chain is removed. Ids are dense and never reused.
pub struct ChainsStorage {
    pub chains_metadata: Vec<Option<ChainMetadata>>,
    pub evm_chains_storage: EvmChainsStorage,
}

/// The registered chains, in id order.
pub open spec fn chain_listing(s: Seq<Option<ChainMetadata>>) -> Seq<(u64, ChainMetadata)>
    decreases s.len(),
{
    if s.len() == 0 {
        Seq::empty()
    } else {
        chain_listing(s.drop_last()) + (match s.last() {
            Some(m) => seq![(((s.len() - 1) as u64), m)],
            None => Seq::empty(),
        })
    }
}

impl ChainsStorage {
    /// One typed-client slot per registered chain.
    pub open spec fn wf(&self) -> bool {
        self.chains_metadata@.len() == self.evm_chains_storage.0@.len()
    }

    /// How many ids were ever given out.
    pub open spec fn spec_chains_count(&self) -> nat {
        self.chains_metadata@.len()
    }

    pub fn new() -> (r: Self)
        ensures
            r.wf(),
            r.spec_chains_count() == 0,
    {
        ChainsStorage { chains_metadata: Vec::new(), evm_chains_storage: EvmChainsStorage(Vec::new()) }
    }

    pub fn chains_count(&self) -> (r: u64)
        requires
            self.chains_metadata@.len() <= u64::MAX,
        ensures
            r == self.spec_chains_count(),
    {
        self.chains_metadata.len() as u64
    }

    /// Forget a chain; only EVM chains can be removed, and the id
    /// keeps its slot so later ids do not move.
    pub fn remove_chain(&mut self, id: u64) -> (r: Result<(), ChainsStorageError>)
        requires
            old(self).wf(),
        ensures
            final(self).wf(),
            (id >= old(self).chains_metadata@.len() || old(self).chains_metadata@[id as int]
                is None) ==> (r == Result::<(), ChainsStorageError>::Err(
                ChainsStorageError::ChainNotFound,
            ) && *final(self) == *old(self)),
            id < old(self).chains_metadata@.len() ==> (old(
                self,
            ).chains_metadata@[id as int] matches Some(m) ==> (if m.chain_type is Evm {
                &&& r is Ok
                &&& final(self).chains_metadata@ == old(self).chains_metadata@.update(
                    id as int,
                    Option::<ChainMetadata>::None,
                )
                &&& final(self).evm_chains_storage.0@ == old(self).evm_chains_storage.0@.update(
                    id as int,
                    Option::<crate::types::evm_chains::EvmChain>::None,
                )
            } else {
                &&& r == Result::<(), ChainsStorageError>::Err(
                    ChainsStorageError::UnknownChainType,
                )
                &&& *final(self) == *old(self)
            })),
    {
        if id >= self.chains_metadata.len() as u64 {
            return Err(ChainsStorageError::ChainNotFound);
        }
        let idx = id as usize;
        match &self.chains_metadata[idx] {
            None => Err(ChainsStorageError::ChainNotFound),
            Some(m) => {
                match m.chain_type {
                    ChainType::Evm => {
                        self.chains_metadata.set(idx, None);
                        self.evm_chains_storage.0.set(idx, None);
                        Ok(())
                    },
                    ChainType::Unknown => Err(ChainsStorageError::UnknownChainType),
                }
            },
        }
    }

    /// The metadata registered under an id.
    pub fn get_chain_metadata(&self, id: u64) -> (r: Result<ChainMetadata, ChainsStorageError>)
        ensures
            (r is Ok) <==> (id < self.chains_metadata@.len() && self.chains_metadata@[id as int]
                is Some),
            r is Ok ==> r->Ok_0 == self.chains_metadata@[id as int]->0,
            r is Err ==> r->Err_0 == ChainsStorageError::ChainNotFound,
    {
        if id >= self.chains_metadata.len() as u64 {
            return Err(ChainsStorageError::ChainNotFound);
        }
        match &self.chains_metadata[id as usize] {
            Some(m) => Ok(m.clone()),
            None => Err(ChainsStorageError::ChainNotFound),
        }
    }

    /// All registered chains with their ids, in id order.
    pub fn get_chains_metadata(&self) -> (r: Vec<(u64, ChainMetadata)>)
        requires
            self.chains_metadata@.len() <= u64::MAX,
        ensures
            r@ == chain_listing(self.chains_metadata@),
    {
        let mut out: Vec<(u64, ChainMetadata)> = Vec::new();
        let mut i: usize = 0;
        proof {
            assert(self.chains_metadata@.take(0) =~= Seq::<Option<ChainMetadata>>::empty());
        }
        while i < self.chains_metadata.len()
            invariant
                i <= self.chains_metadata@.len(),
                self.chains_metadata@.len() <= u64::MAX,
                out@ == chain_listing(self.chains_metadata@.take(i as int)),
            decreases self.chains_metadata@.len() - i,
        {
            proof {
                assert(self.chains_metadata@.take(i + 1).drop_last() =~= self.chains_metadata@.take(
                    i as int,
                ));
                assert(self.chains_metadata@.take(i + 1).last() == self.chains_metadata@[i as int]);
            }
            match &self.chains_metadata[i] {
                Some(m) => {
                    out.push((i as u64, m.clone()));
                    proof {
                        assert(out@ =~= chain_listing(self.chains_metadata@.take(i + 1)));
                    }
                },
                None => {
                    proof {
                        assert(out@ =~= chain_listing(self.chains_metadata@.take(i + 1)));
                    }
                },
            }
            i = i + 1;
        }
        proof {
            assert(self.chains_metadata@.take(self.chains_metadata@.len() as int)
                =~= self.chains_metadata@);
        }
        out
    }
}

} // verus!
