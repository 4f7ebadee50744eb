use vstd::prelude::*;
use crate::natural::Natural;
use crate::types::messages::{Message, MessageView};

verus! {

#[derive(Debug)]
pub enum PendingTransactionError {
    UnsupportedChainType,
}

/// What a destination chain reports about a submitted transaction.
pub struct TransactionReceipt {
    pub status: Option<u64>,
    pub to: Option<Vec<u8>>,
    pub gas_used: Option<Natural>,
}

/// What a destination chain reports about a transaction by hash.
pub struct TransactionInfo {
    pub nonce: u64,
    pub value: Natural,
}

/// A submitted transaction as ghost data.
pub struct PendingTransactionView {
    pub tx_hash: Seq<char>,
    pub message: MessageView,
    pub gas_price: nat,
}

/// A submitted transaction the relay still tracks to finality,
/// with the gas price it paid for it.
pub struct PendingTransaction {
    pub tx_hash: String,
    pub message: Message,
    pub gas_price: Natural,
}

impl View for PendingTransaction {
    type V = PendingTransactionView;

    open spec fn view(&self) -> PendingTransactionView {
        PendingTransactionView {
            tx_hash: self.tx_hash@,
            message: self.message@,
            gas_price: self.gas_price@,
        }
    }
}

impl Clone for PendingTransaction {
    fn clone(&self) -> (r: Self)
        ensures
            r@ == self@,
    {
        PendingTransaction {
            tx_hash: self.tx_hash.clone(),
            message: self.message.clone(),
            gas_price: self.gas_price.clone(),
        }
    }
}

impl PendingTransaction {
    pub fn new(tx_hash: String, message: Message, gas_price: Natural) -> (r: Self)
        ensures
            r@ == (PendingTransactionView {
                tx_hash: tx_hash@,
                message: message@,
                gas_price: gas_price@,
            }),
    {
        PendingTransaction { tx_hash, message, gas_price }
    }
}

/// The queue of transactions awaiting a receipt.
pub struct PendingTransactionsStorage(pub Vec<PendingTransaction>);

impl View for PendingTransactionsStorage {
    type V = Seq<PendingTransactionView>;

    open spec fn view(&self) -> Seq<PendingTransactionView> {
        self.0@.map_values(|t: PendingTransaction| t@)
    }
}

impl PendingTransactionsStorage {
    pub fn new() -> (r: Self)
        ensures
            r@ == Seq::<PendingTransactionView>::empty(),
    {
        let r = PendingTransactionsStorage(Vec::new());
        proof {
            assert(r@ =~= Seq::<PendingTransactionView>::empty());
        }
        r
    }

    pub fn add(&mut self, pending_tx: PendingTransaction)
        ensures
            final(self)@ == old(self)@.push(pending_tx@),
    {
        self.0.push(pending_tx);
        proof {
            assert(self@ =~= old(self)@.push(self.0@.last()@));
        }
    }
}

} // verus!
