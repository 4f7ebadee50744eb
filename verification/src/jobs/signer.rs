use vstd::prelude::*;
use crate::types::chains::ChainType;
use crate::types::messages::{Message, MessageError, MessageView};
use crate::types::{drain_up_to, min_int, Storage, StorageView, BATCH_SIZE};
use crate::utils::encoding::encode_packed_spec;
use crate::utils::keccak_of;

verus! {

#[derive(Debug)]
pub enum SignerError {
    Message(MessageError),
}

/// Take the next batch of observed messages off the queue, oldest
/// first, at most the batch bound.
pub fn take_batch_to_sign(storage: &mut Storage) -> (r: Vec<Message>)
    ensures
        r@.map_values(|m: Message| m@) == old(storage)@.listened.take(
            min_int(BATCH_SIZE as int, old(storage)@.listened.len() as int),
        ),
        final(storage)@ == (StorageView {
            listened: old(storage)@.listened.skip(
                min_int(BATCH_SIZE as int, old(storage)@.listened.len() as int),
            ),
            ..old(storage)@
        }),
{
    let r = drain_up_to(&mut storage.listened_messages, BATCH_SIZE as usize);
    proof {
        let n = min_int(BATCH_SIZE as int, old(storage)@.listened.len() as int);
        assert(r@.map_values(|m: Message| m@) =~= old(storage)@.listened.take(n));
        assert(storage@.listened =~= old(storage)@.listened.skip(n));
        assert(storage@ == (StorageView { listened: storage@.listened, ..old(storage)@ }));
    }
    r
}

/// The digest to sign for a message, by its destination chain's kind:
/// only EVM chains are signable, and only with a 20-byte receiver.
pub fn message_signing_digest(storage: &Storage, message: &Message) -> (r: Result<
    Vec<u8>,
    MessageError,
>)
    ensures
        (message.to_chain_id >= storage@.chains_metadata.len()
            || storage@.chains_metadata[message.to_chain_id as int] is None) ==> (r
            matches Err(e) && e is ChainDoesNotExist),
        message.to_chain_id < storage@.chains_metadata.len() ==> (
        storage@.chains_metadata[message.to_chain_id as int] matches Some(m) ==> (
        if m.chain_type is Evm {
            &&& (r is Ok) <==> message.receiver@.len() == 20
            &&& r is Ok ==> r->Ok_0@ == keccak_of(
                encode_packed_spec(
                    message.index,
                    message.from_chain_id,
                    message.to_chain_id,
                    message.sender@,
                    message.message@,
                    message.receiver@,
                ),
            )
            &&& r is Err ==> r->Err_0 is InvalidReceiver
        } else {
            r matches Err(e) && e is UnknownChainType
        })),
{
    let metadata = match storage.chains_storage.get_chain_metadata(message.to_chain_id) {
        Ok(m) => m,
        Err(_) => {
            return Err(MessageError::ChainDoesNotExist);
        },
    };
    match metadata.chain_type {
        ChainType::Evm => message.signing_digest(),
        ChainType::Unknown => Err(MessageError::UnknownChainType),
    }
}

/// Queue a signed message for the writer.
pub fn push_signed(storage: &mut Storage, message: Message)
    ensures
        final(storage)@ == (StorageView {
            signed: old(storage)@.signed.push(message@),
            ..old(storage)@
        }),
{
    storage.signed_messages.push(message);
    proof {
        assert(storage@.signed =~= old(storage)@.signed.push(
            storage.signed_messages@.last()@,
        ));
        assert(storage@ == (StorageView { signed: storage@.signed, ..old(storage)@ }));
    }
}

} // verus!
