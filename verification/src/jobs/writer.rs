use vstd::prelude::*;
use crate::natural::Natural;
use crate::types::balances::{bumped_tx_count, with_entry, BalanceView, ChainEntryView};
use crate::types::messages::{Message, MessageView};
use crate::types::pending_tx::{PendingTransaction, PendingTransactionView};
use crate::types::principal::Principal;
use crate::types::daemons::charged_cycles;
use crate::types::{
    balance_of, creator_of, drain_up_to, entry_of, min_int, Storage, StorageView, BATCH_SIZE,
    ECDSA_SIGN_CYCLES, HTTP_OUTCALL_CYCLES_COST, MINIMUM_CYCLES,
};
use crate::utils::relay_address_of;

verus! {

#[derive(Debug)]
pub enum WriterError {
    InvalidPublicKey,
}

/// Take the next batch of signed messages off the queue, oldest
/// first, at most the batch bound.
pub fn take_batch_to_write(storage: &mut Storage) -> (r: Vec<Message>)
    ensures
        r@.map_values(|m: Message| m@) == old(storage)@.signed.take(
            min_int(BATCH_SIZE as int, old(storage)@.signed.len() as int),
        ),
        final(storage)@ == (StorageView {
            signed: old(storage)@.signed.skip(
                min_int(BATCH_SIZE as int, old(storage)@.signed.len() as int),
            ),
            ..old(storage)@
        }),
{
    let r = drain_up_to(&mut storage.signed_messages, BATCH_SIZE as usize);
    proof {
        let n = min_int(BATCH_SIZE as int, old(storage)@.signed.len() as int);
        assert(r@.map_values(|m: Message| m@) =~= old(storage)@.signed.take(n));
        assert(storage@.signed =~= old(storage)@.signed.skip(n));
        assert(storage@ == (StorageView { signed: storage@.signed, ..old(storage)@ }));
    }
    r
}

/// All groups of a grouping, stitched back together.
pub open spec fn concat_groups(gs: Seq<Seq<MessageView>>) -> Seq<MessageView>
    decreases gs.len(),
{
    if gs.len() == 0 {
        Seq::empty()
    } else {
        concat_groups(gs.drop_last()) + gs.last()
    }
}

/// The views of a grouping.
pub open spec fn group_views(r: Seq<Vec<Message>>) -> Seq<Seq<MessageView>> {
    r.map_values(|g: Vec<Message>| g@.map_values(|m: Message| m@))
}

/// Split a batch into runs of consecutive messages that share a
/// destination chain, keeping the order: messages for one chain are
/// then submitted serially, so their counter-derived nonces stay in
/// drain order.
pub fn group_by_destination(messages: Vec<Message>) -> (r: Vec<Vec<Message>>)
    ensures
        concat_groups(group_views(r@)) == messages@.map_values(|m: Message| m@),
        forall|i: int| 0 <= i < r@.len() ==> (#[trigger] r@[i])@.len() > 0,
        forall|i: int, k: int|
            0 <= i < r@.len() && 0 <= k < (#[trigger] r@[i])@.len() ==> (#[trigger] r@[i]@[k])@.to_chain_id
                == r@[i]@[0]@.to_chain_id,
        forall|i: int|
            0 < i < r@.len() ==> (#[trigger] r@[i])@[0]@.to_chain_id != r@[i - 1]@[0]@.to_chain_id,
{
    let ghost msgs_spec = messages@.map_values(|m: Message| m@);
    let mut out: Vec<Vec<Message>> = Vec::new();
    let mut cur: Vec<Message> = Vec::new();
    let mut messages = messages;
    let total = messages.len();
    let mut i: usize = 0;
    proof {
        assert(concat_groups(group_views(out@)) =~= Seq::<MessageView>::empty());
        assert(msgs_spec.take(0) =~= Seq::<MessageView>::empty());
        assert(cur@.map_values(|m: Message| m@) =~= Seq::<MessageView>::empty());
    }
    while i < total
        invariant
            i <= total,
            total == messages@.len(),
            msgs_spec == messages@.map_values(|m: Message| m@),
            concat_groups(group_views(out@)) + cur@.map_values(|m: Message| m@) == msgs_spec.take(
                i as int,
            ),
            forall|gi: int| 0 <= gi < out@.len() ==> (#[trigger] out@[gi])@.len() > 0,
            forall|gi: int, k: int|
                0 <= gi < out@.len() && 0 <= k < (#[trigger] out@[gi])@.len() ==> (
                #[trigger] out@[gi]@[k])@.to_chain_id == out@[gi]@[0]@.to_chain_id,
            forall|gi: int|
                0 < gi < out@.len() ==> (#[trigger] out@[gi])@[0]@.to_chain_id != out@[gi
                    - 1]@[0]@.to_chain_id,
            forall|k: int|
                0 <= k < cur@.len() ==> (#[trigger] cur@[k])@.to_chain_id == cur@[0]@.to_chain_id,
            out@.len() > 0 ==> cur@.len() > 0,
            (out@.len() > 0 && cur@.len() > 0) ==> cur@[0]@.to_chain_id != out@[out@.len()
                - 1]@[0]@.to_chain_id,
        decreases total - i,
    {
        proof {
            assert(msgs_spec.take(i + 1).drop_last() =~= msgs_spec.take(i as int));
            assert(msgs_spec.take(i + 1).last() == msgs_spec[i as int]);
            assert(msgs_spec[i as int] == messages@[i as int]@);
        }
        let same = cur.len() > 0 && cur[cur.len() - 1].to_chain_id == messages[i].to_chain_id;
        let m = messages[i].clone();
        if same {
            let ghost cur0 = cur@;
            cur.push(m);
            proof {
                assert(cur@.map_values(|m2: Message| m2@) =~= cur0.map_values(
                    |m2: Message| m2@,
                ).push(messages@[i as int]@));
            }
        } else {
            if cur.len() > 0 {
                let ghost out0 = out@;
                let done = cur;
                cur = Vec::new();
                out.push(done);
                proof {
                    assert(group_views(out@).drop_last() =~= group_views(out0));
                    assert(concat_groups(group_views(out@)) == concat_groups(group_views(out0))
                        + group_views(out@).last());
                    assert(cur@.map_values(|m2: Message| m2@) =~= Seq::<MessageView>::empty());
                }
            }
            let ghost cur0 = cur@;
            cur.push(m);
            proof {
                assert(cur@.map_values(|m2: Message| m2@) =~= cur0.map_values(
                    |m2: Message| m2@,
                ).push(messages@[i as int]@));
            }
        }
        i = i + 1;
    }
    if cur.len() > 0 {
        let ghost out0 = out@;
        out.push(cur);
        proof {
            assert(group_views(out@).drop_last() =~= group_views(out0));
            assert(concat_groups(group_views(out@)) == concat_groups(group_views(out0))
                + group_views(out@).last());
        }
    }
    proof {
        assert(msgs_spec.take(total as int) =~= msgs_spec);
    }
    out
}

/// Multiply a chain's gas price by the relay's flat markup.
pub fn markup_gas_price(gas_price: &Natural) -> (r: Natural)
    ensures
        r@ == (gas_price@ / 10) * 12,
{
    let tenth = gas_price.div_u32(10);
    let twelve = Natural::from_u64(12);
    let r = tenth.mul(&twelve);
    proof {
        assert((gas_price@ / 10) * 12 == 12 * (gas_price@ / 10)) by (nonlinear_arith);
    }
    r
}

/// A state with one more submission counted against a message's
/// creator on its destination chain.
pub open spec fn counted_submission(s: StorageView, m: MessageView) -> StorageView {
    StorageView {
        balances: s.balances.insert(
            creator_of(s, m),
            with_entry(balance_of(s, m), m.to_chain_id, bumped_tx_count(entry_of(s, m))),
        ),
        ..s
    }
}

/// Everything a submission needs besides the message itself.
pub struct WritePlan {
    pub creator: Principal,
    pub sender_address: Vec<u8>,
    pub gas_price: Natural,
    pub nonce: u64,
}

/// Decide one submission: find the message's creator, derive the
/// sender address from the creator's public key, apply the gas
/// markup, and take the next transaction counter value as the nonce.
/// A message whose receiver is not a 20-byte address is dropped
/// without a trace, as the destination could never pay it out.
pub fn prepare_write(storage: &mut Storage, message: &Message, gas_price: &Natural) -> (r: Result<
    Option<WritePlan>,
    WriterError,
>)
    requires
        old(storage).wf(),
        message@.daemon_id < old(storage)@.daemons.len(),
        old(storage)@.balances.contains_key(creator_of(old(storage)@, message@)),
        balance_of(old(storage)@, message@).chains_data.contains_key(message@.to_chain_id),
        entry_of(old(storage)@, message@).tx_count < u64::MAX,
    ensures
        final(storage).wf(),
        relay_address_of(balance_of(old(storage)@, message@).public_key) is None ==> (r matches Err(
            er,
        ) && er is InvalidPublicKey && *final(storage) == *old(storage)),
        (relay_address_of(balance_of(old(storage)@, message@).public_key) is Some
            && message@.receiver.len() != 20) ==> (r matches Ok(p) && p is None && *final(storage)
            == *old(storage)),
        (relay_address_of(balance_of(old(storage)@, message@).public_key) is Some
            && message@.receiver.len() == 20) ==> (r matches Ok(po) && po matches Some(plan)
            && plan.creator@ == creator_of(old(storage)@, message@) && plan.sender_address@
            == relay_address_of(balance_of(old(storage)@, message@).public_key)->Some_0
            && plan.gas_price@ == (gas_price@ / 10) * 12 && plan.nonce == entry_of(
            old(storage)@,
            message@,
        ).tx_count + 1 && final(storage)@ == counted_submission(old(storage)@, message@)),
{
    let daemon = match storage.daemon_storage.get_daemon(message.daemon_id) {
        Some(d) => d,
        None => {
            proof {
                assert(false);
            }
            return Err(WriterError::InvalidPublicKey);
        },
    };
    let balance = match storage.balances_storage.get_balance(&daemon.creator) {
        Some(b) => b,
        None => {
            proof {
                assert(false);
            }
            return Err(WriterError::InvalidPublicKey);
        },
    };
    let sender_address = match crate::utils::address_of_pubkey_hex(&balance.public_key) {
        Some(a) => a,
        None => {
            return Err(WriterError::InvalidPublicKey);
        },
    };
    if message.receiver.len() != 20 {
        return Ok(None);
    }
    let gas = markup_gas_price(gas_price);
    let nonce = storage.balances_storage.increment_tx_count(&daemon.creator, message.to_chain_id);
    proof {
        assert(storage@ == (StorageView { balances: storage@.balances, ..old(storage)@ }));
    }
    Ok(
        Some(
            WritePlan {
                creator: daemon.creator,
                sender_address,
                gas_price: gas,
                nonce,
            },
        ),
    )
}

/// Record a submission the destination chain accepted: the relay now
/// tracks it to finality under the gas price it paid.
pub fn record_write_success(
    storage: &mut Storage,
    message: Message,
    tx_hash: String,
    gas_price: Natural,
)
    ensures
        final(storage)@ == (StorageView {
            pending: old(storage)@.pending.push(
                (PendingTransactionView {
                    tx_hash: tx_hash@,
                    message: message@,
                    gas_price: gas_price@,
                }),
            ),
            ..old(storage)@
        }),
{
    let tx = PendingTransaction::new(tx_hash, message, gas_price);
    storage.pending_txs_storage.add(tx);
    proof {
        assert(storage@ == (StorageView { pending: storage@.pending, ..old(storage)@ }));
    }
}

/// Give the counter value back after the destination chain refused a
/// submission, so the next attempt reuses the same nonce.
pub fn record_write_failure(storage: &mut Storage, creator: &Principal, chain_id: u64)
    requires
        old(storage).wf(),
        old(storage)@.balances.contains_key(creator@),
        old(storage)@.balances[creator@].chains_data.contains_key(chain_id),
        old(storage)@.balances[creator@].chains_data[chain_id].tx_count > 0,
    ensures
        final(storage).wf(),
        final(storage)@ == (StorageView {
            balances: old(storage)@.balances.insert(
                creator@,
                with_entry(
                    old(storage)@.balances[creator@],
                    chain_id,
                    (ChainEntryView {
                        tx_count: (old(storage)@.balances[creator@].chains_data[chain_id].tx_count
                            - 1) as u64,
                        ..old(storage)@.balances[creator@].chains_data[chain_id]
                    }),
                ),
            ),
            ..old(storage)@
        }),
{
    storage.balances_storage.decrement_tx_count(creator, chain_id);
    proof {
        assert(storage@ == (StorageView { balances: storage@.balances, ..old(storage)@ }));
    }
}

/// The per-tick cycle charge of one writer run: four HTTP calls, the
/// flat job cost and one threshold signature.
pub open spec fn writing_cycles_cost_spec() -> nat {
    (HTTP_OUTCALL_CYCLES_COST * 4 + 2_000_000 + ECDSA_SIGN_CYCLES) as nat
}

/// Charge a daemon's creator for one writer tick and stop the daemon
/// when the remaining credit falls under the scheduling minimum. The
/// returned handle is the timer the host must cancel, if the daemon
/// was stopped while holding one.
pub fn collect_writing_cycles(storage: &mut Storage, daemon_id: u64, principal: &Principal) -> (cancelled:
    Option<u64>)
    requires
        old(storage).wf(),
        old(storage)@.balances.contains_key(principal@),
        daemon_id < old(storage)@.daemons.len(),
    ensures
        final(storage).wf(),
        final(storage)@.balances.contains_key(principal@),
        final(storage)@.balances[principal@].cycles == charged_cycles(
            old(storage)@.balances[principal@].cycles,
            writing_cycles_cost_spec(),
        ),
        final(storage)@.balances[principal@].cycles < MINIMUM_CYCLES
            ==> !(final(storage)@.daemons[daemon_id as int].is_active),
        final(storage)@.balances[principal@].cycles >= MINIMUM_CYCLES ==> final(storage)@.daemons
            == old(storage)@.daemons,
{
    let cost = Natural::from_u64(HTTP_OUTCALL_CYCLES_COST * 4 + 2_000_000 + ECDSA_SIGN_CYCLES);
    let reduced = storage.balances_storage.reduce_cycles(principal, &cost);
    let minimum = Natural::from_u64(MINIMUM_CYCLES);
    let balance = match storage.balances_storage.get_balance(principal) {
        Some(b) => b,
        None => {
            proof {
                assert(false);
            }
            return None;
        },
    };
    if balance.cycles.lt(&minimum) {
        storage.daemon_storage.stop(daemon_id)
    } else {
        None
    }
}

} // verus!
