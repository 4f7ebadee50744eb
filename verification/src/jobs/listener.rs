use vstd::prelude::*;
use crate::types::chains::ChainMetadataView;
use crate::types::messages::{Message, MessageView};
use crate::types::{Storage, StorageView};
use crate::utils::encoding::{parse_event_data, spec_parse_event_data, spec_word_u64, word_u64_of};
use crate::utils::keccak_of;
use crate::utils::keccak256;
use crate::utils::signing::bytes_eq;
use vstd::string::StringSliceAdditionalSpecFns;

verus! {

#[derive(Debug)]
pub enum ListenerError {
    DaemonNotFound,
    MalformedLog,
}

/// A source-chain log as ghost data.
pub struct RawLogView {
    pub topics: Seq<Seq<u8>>,
    pub data: Seq<u8>,
}

/// A source-chain log as its RPC returns it: indexed topics and a
/// data section.
pub struct RawLog {
    pub topics: Vec<Vec<u8>>,
    pub data: Vec<u8>,
}

impl View for RawLog {
    type V = RawLogView;

    open spec fn view(&self) -> RawLogView {
        RawLogView { topics: self.topics@.map_values(|t: Vec<u8>| t@), data: self.data@ }
    }
}

/// The bytes whose digest marks a relay event.
pub open spec fn event_signature_input() -> Seq<u8> {
    "CcmpMessage(uint256,uint256,address,bytes,bytes)".spec_bytes()
}

/// The topic that marks a relay event.
pub fn message_event_signature() -> (r: Vec<u8>)
    ensures
        r@ == keccak_of(event_signature_input()),
{
    let sig = "CcmpMessage(uint256,uint256,address,bytes,bytes)";
    let bytes = sig.as_bytes_vec();
    keccak256(&bytes)
}

/// Whether a log carries the relay event topic.
pub open spec fn carries_event(log: RawLogView) -> bool {
    log.topics.len() > 0 && log.topics[0] == keccak_of(event_signature_input())
}

/// How an event log reads: its index topic and its decoded data
/// section, or nothing when either is malformed.
pub open spec fn spec_log_fields(log: RawLogView) -> Option<(u64, u64, Seq<u8>, Seq<u8>, Seq<u8>)> {
    if log.topics.len() < 2 {
        None
    } else {
        match spec_word_u64(log.topics[1]) {
            None => None,
            Some(index) => match spec_parse_event_data(log.data) {
                None => None,
                Some((to_chain_id, sender, message, receiver)) => Some(
                    (index, to_chain_id, sender, message, receiver),
                ),
            },
        }
    }
}

/// The messages one batch of logs produces, oldest first: logs
/// without the event topic are passed over, events aimed at an
/// unregistered chain are dropped, and one malformed event log spoils
/// the whole batch.
pub open spec fn spec_collect_messages(
    logs: Seq<RawLogView>,
    chains: Seq<Option<ChainMetadataView>>,
    from_chain_id: u64,
    daemon_id: u64,
) -> Option<Seq<MessageView>>
    decreases logs.len(),
{
    if logs.len() == 0 {
        Some(Seq::empty())
    } else {
        match spec_collect_messages(logs.drop_last(), chains, from_chain_id, daemon_id) {
            None => None,
            Some(ms) => {
                let lg = logs.last();
                if !carries_event(lg) {
                    Some(ms)
                } else {
                    match spec_log_fields(lg) {
                        None => None,
                        Some((index, to_chain_id, sender, message, receiver)) => {
                            if to_chain_id < chains.len() && chains[to_chain_id as int] is Some {
                                Some(
                                    ms.push(
                                        MessageView {
                                            index,
                                            from_chain_id,
                                            to_chain_id,
                                            sender,
                                            message,
                                            receiver,
                                            signature: None,
                                            daemon_id,
                                        },
                                    ),
                                )
                            } else {
                                Some(ms)
                            }
                        },
                    }
                }
            },
        }
    }
}

/// A spoiled prefix spoils the whole batch.
proof fn lemma_collect_none_prefix(
    logs: Seq<RawLogView>,
    chains: Seq<Option<ChainMetadataView>>,
    from_chain_id: u64,
    daemon_id: u64,
    k: int,
)
    requires
        0 <= k <= logs.len(),
        spec_collect_messages(logs.take(k), chains, from_chain_id, daemon_id) is None,
    ensures
        spec_collect_messages(logs, chains, from_chain_id, daemon_id) is None,
    decreases logs.len() - k,
{
    if k == logs.len() {
        assert(logs.take(k) =~= logs);
    } else {
        assert(logs.take(k + 1).drop_last() =~= logs.take(k));
        lemma_collect_none_prefix(logs, chains, from_chain_id, daemon_id, k + 1);
    }
}

/// One listener tick's pure tail, run after the host fetched the
/// current block number and the daemon's logs: read the batch, queue
/// what it produces, advance the last-block mark, and say whether the
/// signer has work now.
///
/// A malformed event log fails the whole tick and changes nothing, so
/// the next tick re-polls the same window.
#[verifier::loop_isolation(false)]
pub fn process_logs(
    storage: &mut Storage,
    daemon_id: u64,
    to_block: u64,
    logs: &Vec<RawLog>,
) -> (r: Result<bool, ListenerError>)
    requires
        old(storage).wf(),
        daemon_id < old(storage)@.daemons.len(),
        old(storage)@.balances.contains_key(old(storage)@.daemons[daemon_id as int].creator),
        old(storage)@.balances[old(storage)@.daemons[daemon_id as int].creator].chains_data.contains_key(
            old(storage)@.daemons[daemon_id as int].listen_chain_id,
        ),
    ensures
        final(storage).wf(),
        (r is Err) <==> spec_collect_messages(
            logs@.map_values(|l: RawLog| l@),
            old(storage)@.chains_metadata,
            old(storage)@.daemons[daemon_id as int].listen_chain_id,
            daemon_id,
        ) is None,
        r is Err ==> *final(storage) == *old(storage),
        r matches Ok(started) ==> {
            let d = old(storage)@.daemons[daemon_id as int];
            let e0 = old(storage)@.balances[d.creator].chains_data[d.listen_chain_id];
            let ms = spec_collect_messages(
                logs@.map_values(|l: RawLog| l@),
                old(storage)@.chains_metadata,
                d.listen_chain_id,
                daemon_id,
            )->Some_0;
            &&& final(storage)@.listened == old(storage)@.listened + ms
            &&& started == (ms.len() > 0)
            &&& final(storage)@.balances == old(storage)@.balances.insert(
                d.creator,
                (crate::types::balances::BalanceView {
                    chains_data: old(storage)@.balances[d.creator].chains_data.insert(
                        d.listen_chain_id,
                        (crate::types::balances::ChainEntryView {
                            last_block: (if to_block > e0.last_block {
                                to_block
                            } else {
                                e0.last_block
                            }),
                            ..e0
                        }),
                    ),
                    ..old(storage)@.balances[d.creator]
                }),
            )
            &&& final(storage)@.signed == old(storage)@.signed
            &&& final(storage)@.pending == old(storage)@.pending
            &&& final(storage)@.daemons == old(storage)@.daemons
        },
{
    let ghost logs_spec = logs@.map_values(|l: RawLog| l@);
    let ghost chains_spec = storage@.chains_metadata;
    let ghost from_spec = storage@.daemons[daemon_id as int].listen_chain_id;
    let signature = message_event_signature();
    let daemon = match storage.daemon_storage.get_daemon(daemon_id) {
        Some(d) => d,
        None => {
            proof {
                assert(false);
            }
            return Err(ListenerError::DaemonNotFound);
        },
    };
    let mut messages: Vec<Message> = Vec::new();
    let mut i: usize = 0;
    proof {
        assert(logs_spec.take(0) =~= Seq::<RawLogView>::empty());
        assert(messages@.map_values(|m: Message| m@) =~= Seq::<MessageView>::empty());
    }
    while i < logs.len()
        invariant
            i <= logs@.len(),
            spec_collect_messages(logs_spec.take(i as int), chains_spec, from_spec, daemon_id)
                == Some(messages@.map_values(|m: Message| m@)),
        decreases logs@.len() - i,
    {
        let log = &logs[i];
        proof {
            assert(logs_spec.take(i + 1).drop_last() =~= logs_spec.take(i as int));
            assert(logs_spec.take(i + 1).last() == logs_spec[i as int]);
            assert(logs_spec[i as int] == log@);
            assert(logs_spec[i as int].topics.len() == log.topics@.len());
        }
        if log.topics.len() > 0 && bytes_eq(&log.topics[0], &signature) {
            proof {
                assert(log@.topics[0] == log.topics@[0]@);
                assert(carries_event(log@));
            }
            if log.topics.len() < 2 {
                proof {
                    assert(spec_collect_messages(
                        logs_spec.take(i + 1),
                        chains_spec,
                        from_spec,
                        daemon_id,
                    ) is None);
                    lemma_collect_none_prefix(logs_spec, chains_spec, from_spec, daemon_id, i + 1);
                }
                return Err(ListenerError::MalformedLog);
            }
            let index = match word_u64_of(&log.topics[1]) {
                Some(x) => x,
                None => {
                    proof {
                        assert(log@.topics[1] == log.topics@[1]@);
                        assert(spec_collect_messages(
                            logs_spec.take(i + 1),
                            chains_spec,
                            from_spec,
                            daemon_id,
                        ) is None);
                        lemma_collect_none_prefix(
                            logs_spec,
                            chains_spec,
                            from_spec,
                            daemon_id,
                            i + 1,
                        );
                    }
                    return Err(ListenerError::MalformedLog);
                },
            };
            proof {
                assert(log@.topics[1] == log.topics@[1]@);
            }
            let parsed = match parse_event_data(&log.data) {
                Some(p) => p,
                None => {
                    proof {
                        assert(spec_collect_messages(
                            logs_spec.take(i + 1),
                            chains_spec,
                            from_spec,
                            daemon_id,
                        ) is None);
                        lemma_collect_none_prefix(
                            logs_spec,
                            chains_spec,
                            from_spec,
                            daemon_id,
                            i + 1,
                        );
                    }
                    return Err(ListenerError::MalformedLog);
                },
            };
            let m = Message::new(
                index,
                parsed.to_chain_id,
                parsed.sender,
                parsed.message,
                parsed.receiver,
                &storage.chains_storage,
                daemon.listen_chain_id,
                daemon_id,
            );
            proof {
                assert(chains_spec.len() == storage.chains_storage.chains_metadata@.len());
                assert(forall|k: int|
                    0 <= k < chains_spec.len() ==> ((#[trigger] chains_spec[k]) is Some
                        <==> storage.chains_storage.chains_metadata@[k] is Some));
                assert(daemon.listen_chain_id == from_spec);
            }
            match m {
                Some(msg) => {
                    let ghost pre = messages@.map_values(|m2: Message| m2@);
                    messages.push(msg);
                    proof {
                        assert(messages@.map_values(|m2: Message| m2@) =~= pre.push(
                            messages@.last()@,
                        ));
                    }
                },
                None => {},
            }
        } else {
            proof {
                if log@.topics.len() > 0 {
                    assert(log@.topics[0] == log.topics@[0]@);
                }
                assert(!carries_event(log@));
            }
        }
        i = i + 1;
    }
    proof {
        assert(logs_spec.take(logs_spec.len() as int) =~= logs_spec);
    }
    let produced = messages.len() > 0;
    let ghost ms_spec = messages@.map_values(|m: Message| m@);
    let count = messages.len();
    let mut j: usize = 0;
    proof {
        assert(old(storage)@.listened + ms_spec.take(0) =~= old(storage)@.listened);
    }
    while j < count
        invariant
            j <= count,
            count == messages@.len(),
            storage.wf(),
            storage@.listened == old(storage)@.listened + ms_spec.take(j as int),
            storage@ == (StorageView { listened: storage@.listened, ..old(storage)@ }),
        decreases count - j,
    {
        let m = messages[j].clone();
        let ghost pre_listened = storage@.listened;
        storage.listened_messages.push(m);
        proof {
            assert(m@ == ms_spec[j as int]);
            assert(storage@.listened =~= pre_listened.push(ms_spec[j as int]));
            assert(ms_spec.take(j + 1) =~= ms_spec.take(j as int).push(ms_spec[j as int]));
            assert(storage@.listened =~= old(storage)@.listened + ms_spec.take(j + 1));
            assert(storage@ == (StorageView { listened: storage@.listened, ..old(storage)@ }));
        }
        j = j + 1;
    }
    proof {
        assert(ms_spec.take(count as int) =~= ms_spec);
    }
    let creator = daemon.creator.clone();
    storage.balances_storage.update_last_block(&creator, daemon.listen_chain_id, to_block);
    Ok(produced)
}

} // verus!
