use vstd::prelude::*;
use crate::types::chains::ChainsStorage;
use crate::types::principal::copy_bytes;
use crate::utils::encoding::{encode_packed, encode_packed_spec};
use crate::utils::keccak_of;
use crate::utils::keccak256;
use crate::utils::signing::{get_eth_v, recovered_compressed_key};

verus! {

#[derive(Debug)]
pub enum MessageError {
    InvalidReceiver,
    ChainDoesNotExist,
    UnknownChainType,
    SignWithECDSAError(String),
    RecoveryFailed,
}

/// How a message is rendered before hashing or sending.
#[derive(Debug, PartialEq, Eq, Structural, Clone, Copy)]
pub enum Encoding {
    Plain,
    AbiEncodePacked,
}

/// A relayed message as ghost data.
pub struct MessageView {
    pub index: u64,
    pub from_chain_id: u64,
    pub to_chain_id: u64,
    pub sender: Seq<u8>,
    pub message: Seq<u8>,
    pub receiver: Seq<u8>,
    pub signature: Option<Seq<u8>>,
    pub daemon_id: u64,
}

/// One observed event on its way to the destination chain.
pub struct Message {
    pub index: u64,
    pub from_chain_id: u64,
    pub to_chain_id: u64,
    pub sender: Vec<u8>,
    pub message: Vec<u8>,
    pub receiver: Vec<u8>,
    pub signature: Option<Vec<u8>>,
    pub daemon_id: u64,
}

impl View for Message {
    type V = MessageView;

    open spec fn view(&self) -> MessageView {
        MessageView {
            index: self.index,
            from_chain_id: self.from_chain_id,
            to_chain_id: self.to_chain_id,
            sender: self.sender@,
            message: self.message@,
            receiver: self.receiver@,
            signature: match self.signature {
                Some(s) => Some(s@),
                None => None,
            },
            daemon_id: self.daemon_id,
        }
    }
}

impl Clone for Message {
    fn clone(&self) -> (r: Self)
        ensures
            r@ == self@,
    {
        Message {
            index: self.index,
            from_chain_id: self.from_chain_id,
            to_chain_id: self.to_chain_id,
            sender: copy_bytes(&self.sender),
            message: copy_bytes(&self.message),
            receiver: copy_bytes(&self.receiver),
            signature: match &self.signature {
                Some(s) => Some(copy_bytes(s)),
                None => None,
            },
            daemon_id: self.daemon_id,
        }
    }
}

/// The bytes the destination contract hashes for a message.
pub open spec fn message_digest_input(m: MessageView) -> Seq<u8> {
    encode_packed_spec(m.index, m.from_chain_id, m.to_chain_id, m.sender, m.message, m.receiver)
}

impl Message {
    /// Take a parsed event into the pipeline; an event aimed at an
    /// unregistered chain is dropped.
    pub fn new(
        index: u64,
        to_chain_id: u64,
        sender: Vec<u8>,
        message: Vec<u8>,
        receiver: Vec<u8>,
        chains: &ChainsStorage,
        from_chain_id: u64,
        daemon_id: u64,
    ) -> (r: Option<Message>)
        ensures
            (r is Some) <==> (to_chain_id < chains.chains_metadata@.len()
                && chains.chains_metadata@[to_chain_id as int] is Some),
            r matches Some(m) ==> m@ == (MessageView {
                index,
                from_chain_id,
                to_chain_id,
                sender: sender@,
                message: message@,
                receiver: receiver@,
                signature: None,
                daemon_id,
            }),
    {
        let known = match chains.get_chain_metadata(to_chain_id) {
            Ok(_) => true,
            Err(_) => false,
        };
        if !known {
            return None;
        }
        Some(
            Message {
                index,
                from_chain_id,
                to_chain_id,
                sender,
                message,
                receiver,
                signature: None,
                daemon_id,
            },
        )
    }

    /// Render the message: packed words and raw bytes for an EVM
    /// destination, the bare payload otherwise. A packed rendering
    /// demands a 20-byte receiver address.
    pub fn encode(&self, encoding: Encoding) -> (r: Result<Vec<u8>, MessageError>)
        ensures
            encoding is AbiEncodePacked ==> {
                &&& (r is Ok) <==> self.receiver@.len() == 20
                &&& r is Ok ==> r->Ok_0@ == message_digest_input(self@)
                &&& r is Err ==> r->Err_0 is InvalidReceiver
            },
            encoding is Plain ==> (r is Ok && r->Ok_0@ == self.message@),
    {
        match encoding {
            Encoding::AbiEncodePacked => {
                if self.receiver.len() != 20 {
                    return Err(MessageError::InvalidReceiver);
                }
                Ok(
                    encode_packed(
                        self.index,
                        self.from_chain_id,
                        self.to_chain_id,
                        &self.sender,
                        &self.message,
                        &self.receiver,
                    ),
                )
            },
            Encoding::Plain => Ok(copy_bytes(&self.message)),
        }
    }

    /// The 32-byte digest an EVM destination signs: Keccak-256 of the
    /// packed rendering.
    pub fn signing_digest(&self) -> (r: Result<Vec<u8>, MessageError>)
        ensures
            (r is Ok) <==> self.receiver@.len() == 20,
            r is Ok ==> r->Ok_0@ == keccak_of(message_digest_input(self@)) && r->Ok_0@.len() == 32,
            r is Err ==> r->Err_0 is InvalidReceiver,
    {
        let encoded = match self.encode(Encoding::AbiEncodePacked) {
            Ok(e) => e,
            Err(e) => {
                return Err(e);
            },
        };
        Ok(keccak256(&encoded))
    }

    /// Attach a fresh 64-byte signature, extended by the recovery byte
    /// the destination chain expects under the relay's public key.
    pub fn attach_evm_signature(&self, rs: Vec<u8>, public_key: &Vec<u8>) -> (r: Result<
        Message,
        MessageError,
    >)
        requires
            rs@.len() == 64,
            self.receiver@.len() == 20,
        ensures
            (r is Ok) <==> (recovered_compressed_key(
                keccak_of(message_digest_input(self@)),
                rs@,
            ) is Some),
            r matches Ok(m) ==> m@ == (MessageView {
                signature: Some(
                    rs@.push(
                        if recovered_compressed_key(
                            keccak_of(message_digest_input(self@)),
                            rs@,
                        )->Some_0 == public_key@ {
                            27u8
                        } else {
                            28u8
                        },
                    ),
                ),
                ..self@
            }),
            r is Err ==> r->Err_0 is RecoveryFailed,
    {
        let digest = match self.signing_digest() {
            Ok(d) => d,
            Err(_) => {
                return Err(MessageError::RecoveryFailed);
            },
        };
        let v = match get_eth_v(&rs, &digest, public_key) {
            Some(v) => v,
            None => {
                return Err(MessageError::RecoveryFailed);
            },
        };
        let mut signature = rs;
        signature.push(v);
        let mut signed = self.clone();
        signed.signature = Some(signature);
        Ok(signed)
    }
}

} // verus!
