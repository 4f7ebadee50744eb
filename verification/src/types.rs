use vstd::prelude::*;
use crate::types::balances::{BalancesStorage, BalanceView};
use crate::types::chains::{ChainMetadataView, ChainsStorage};
use crate::types::config::Config;
use crate::types::daemons::{DaemonsStorage, DaemonView};
use crate::types::evm_chains::EvmChainView;
use crate::types::job::{Job, JobType, JobView};
use crate::types::messages::{Message, MessageView};
use crate::types::pending_tx::{PendingTransactionsStorage, PendingTransactionView};
use crate::utils::hexcodec::{hex_chars_of, hex_encode};

pub mod assoc;
pub mod balances;
pub mod chains;
pub mod config;
pub mod daemons;
pub mod evm_chains;
pub mod job;
pub mod messages;
pub mod pending_tx;
pub mod principal;

verus! {

/// Compute credit a balance must keep for its daemons to stay scheduled.
pub const MINIMUM_CYCLES: u64 = 100_000_000_000;

/// Cycle cost of one outbound HTTP call made on a balance's behalf.
pub const HTTP_OUTCALL_CYCLES_COST: u64 = 49_140_000;

/// Cycle cost of one threshold-ECDSA signature.
pub const ECDSA_SIGN_CYCLES: u64 = 23_000_000_000;

/// How many queue entries one stage tick takes on.
pub const BATCH_SIZE: u64 = 10;

#[derive(Debug)]
pub enum StorageError {
    IcError(String),
}

/// The whole relay state as ghost data.
pub struct StorageView {
    pub key: Seq<char>,
    pub public_key: Seq<char>,
    pub chains_metadata: Seq<Option<ChainMetadataView>>,
    pub evm_chains: Seq<Option<EvmChainView>>,
    pub signer_job: JobView,
    pub writer_job: JobView,
    pub checker_job: JobView,
    pub listened: Seq<MessageView>,
    pub signed: Seq<MessageView>,
    pub balances: Map<Seq<u8>, BalanceView>,
    pub daemons: Seq<DaemonView>,
    pub pending: Seq<PendingTransactionView>,
}

/// The root of all relay state. Every component owns a part of it;
/// the host hands it to each operation explicitly.
pub struct Storage {
    pub key: String,
    pub public_key: String,
    pub chains_storage: ChainsStorage,
    pub signer_job: Job,
    pub writer_job: Job,
    pub checker_job: Job,
    pub listened_messages: Vec<Message>,
    pub signed_messages: Vec<Message>,
    pub balances_storage: BalancesStorage,
    pub daemon_storage: DaemonsStorage,
    pub pending_txs_storage: PendingTransactionsStorage,
}

/// Option-wrapped views of a slot sequence.
pub open spec fn slot_views<T: View>(s: Seq<Option<T>>) -> Seq<Option<<T as View>::V>> {
    s.map_values(
        |o: Option<T>|
            match o {
                Some(v) => Some(v@),
                None => None,
            },
    )
}

impl View for Storage {
    type V = StorageView;

    open spec fn view(&self) -> StorageView {
        StorageView {
            key: self.key@,
            public_key: self.public_key@,
            chains_metadata: slot_views(self.chains_storage.chains_metadata@),
            evm_chains: slot_views(self.chains_storage.evm_chains_storage.0@),
            signer_job: self.signer_job@,
            writer_job: self.writer_job@,
            checker_job: self.checker_job@,
            listened: self.listened_messages@.map_values(|m: Message| m@),
            signed: self.signed_messages@.map_values(|m: Message| m@),
            balances: self.balances_storage@,
            daemons: self.daemon_storage@,
            pending: self.pending_txs_storage@,
        }
    }
}

impl Storage {
    /// Component invariants, plus each stage job driving its own stage.
    pub open spec fn wf(&self) -> bool {
        &&& self.chains_storage.wf()
        &&& self.balances_storage.wf()
        &&& self.daemon_storage.wf()
        &&& self.signer_job.kind() == JobType::Signer
        &&& self.writer_job.kind() == JobType::Writer
        &&& self.checker_job.kind() == JobType::Checker
    }

    /// A fresh relay: the key from the configuration, the three stage
    /// jobs built with their configured periods and not yet armed.
    pub fn init(config: Config) -> (r: Storage)
        ensures
            r.wf(),
            r.key@ == config.key@,
            r@.public_key.len() == 0,
            r@.chains_metadata.len() == 0,
            r@.evm_chains.len() == 0,
            r.signer_job.interval() == config.signer_interval_secs,
            r.writer_job.interval() == config.writer_interval_secs,
            r.checker_job.interval() == config.checker_interval_secs,
            !r.signer_job.active() && !r.writer_job.active() && !r.checker_job.active(),
            r@.listened.len() == 0,
            r@.signed.len() == 0,
            r@.balances == Map::<Seq<u8>, BalanceView>::empty(),
            r@.daemons.len() == 0,
            r@.pending.len() == 0,
    {
        let r = Storage {
            key: config.key,
            public_key: String::new(),
            chains_storage: ChainsStorage::new(),
            signer_job: Job::new(config.signer_interval_secs, JobType::Signer),
            writer_job: Job::new(config.writer_interval_secs, JobType::Writer),
            checker_job: Job::new(config.checker_interval_secs, JobType::Checker),
            listened_messages: Vec::new(),
            signed_messages: Vec::new(),
            balances_storage: BalancesStorage::new(),
            daemon_storage: DaemonsStorage::new(),
            pending_txs_storage: PendingTransactionsStorage::new(),
        };
        proof {
            assert(r@.listened =~= Seq::<MessageView>::empty());
            assert(r@.signed =~= Seq::<MessageView>::empty());
            assert(r@.chains_metadata =~= Seq::<Option<ChainMetadataView>>::empty());
            assert(r@.evm_chains =~= Seq::<Option<EvmChainView>>::empty());
        }
        r
    }

    /// The cached relay public key, present once the host derived it.
    pub fn cached_public_key(&self) -> (r: Option<String>)
        ensures
            (r is Some) <==> self.public_key@.len() > 0,
            r is Some ==> r->Some_0@ == self.public_key@,
    {
        if self.public_key.as_str().is_empty() {
            None
        } else {
            Some(self.public_key.clone())
        }
    }

    /// Cache the relay public key the host derived, in hex.
    pub fn set_public_key(&mut self, raw: &Vec<u8>) -> (r: String)
        ensures
            r@ == hex_chars_of(raw@),
            final(self)@ == (StorageView { public_key: hex_chars_of(raw@), ..old(self)@ }),
    {
        let pk = hex_encode(raw);
        self.public_key = pk.clone();
        pk
    }
}

/// The creator behind a message: the principal of the daemon that
/// produced it.
pub open spec fn creator_of(s: StorageView, m: MessageView) -> Seq<u8> {
    s.daemons[m.daemon_id as int].creator
}

/// The creator's balance.
pub open spec fn balance_of(s: StorageView, m: MessageView) -> BalanceView {
    s.balances[creator_of(s, m)]
}

/// The creator's entry for the message's destination chain.
pub open spec fn entry_of(s: StorageView, m: MessageView) -> crate::types::balances::ChainEntryView {
    balance_of(s, m).chains_data[m.to_chain_id]
}

/// The smaller of two numbers.
pub open spec fn min_int(a: int, b: int) -> int {
    if a < b {
        a
    } else {
        b
    }
}

/// Take up to `n` items off the front of a queue, in order.
pub fn drain_up_to<T>(q: &mut Vec<T>, n: usize) -> (r: Vec<T>)
    ensures
        r@ == old(q)@.take(min_int(n as int, old(q)@.len() as int)),
        final(q)@ == old(q)@.skip(min_int(n as int, old(q)@.len() as int)),
{
    let count: usize = if n < q.len() {
        n
    } else {
        q.len()
    };
    let mut out: Vec<T> = Vec::new();
    let mut i: usize = 0;
    proof {
        assert(out@ =~= old(q)@.take(0));
        assert(q@ =~= old(q)@.skip(0));
    }
    while i < count
        invariant
            i <= count,
            count == min_int(n as int, old(q)@.len() as int),
            out@ == old(q)@.take(i as int),
            q@ == old(q)@.skip(i as int),
        decreases count - i,
    {
        let item = q.remove(0);
        out.push(item);
        proof {
            assert(out@ =~= old(q)@.take(i + 1));
            assert(q@ =~= old(q)@.skip(i + 1));
        }
        i = i + 1;
    }
    out
}

} // verus!
