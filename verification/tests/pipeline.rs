use ccmp::jobs::checker::{check_evm, take_pending_batch};
use ccmp::jobs::listener::{message_event_signature, process_logs, RawLog};
use ccmp::jobs::signer::{message_signing_digest, push_signed, take_batch_to_sign};
use ccmp::jobs::writer::{
    group_by_destination, markup_gas_price, prepare_write, record_write_success,
    take_batch_to_write,
};
use ccmp::methods::balances::add_cycles;
use ccmp::methods::chains::add_evm_chain;
use ccmp::methods::daemons::{register_daemon, RegisterDaemonArgs};
use ccmp::natural::Natural;
use ccmp::types::config::Config;
use ccmp::types::messages::Message;
use ccmp::types::pending_tx::{PendingTransaction, TransactionReceipt};
use ccmp::types::principal::Principal;
use ccmp::types::Storage;

const PLENTY: u64 = 200_000_000_000;

fn fresh_storage() -> Storage {
    Storage::init(Config {
        key: String::from("relay-key"),
        signer_interval_secs: 5,
        writer_interval_secs: 5,
        checker_interval_secs: 5,
    })
}

fn caller() -> Principal {
    Principal::from_bytes(vec![1, 2, 3, 4])
}

fn relay_key_hex() -> String {
    let mut sk_bytes = [0u8; 32];
    sk_bytes[31] = 7;
    let sk = libsecp256k1::SecretKey::parse(&sk_bytes).unwrap();
    let pk = libsecp256k1::PublicKey::from_secret_key(&sk);
    hex::encode(pk.serialize_compressed().to_vec())
}

/// A funded relay with one EVM chain and one registered daemon.
fn populated_storage() -> (Storage, Principal, u64, u64) {
    let mut storage = fresh_storage();
    let p = caller();
    add_cycles(&mut storage, &p, &Natural::from_u64(PLENTY), relay_key_hex());
    let chain_id = add_evm_chain(
        &mut storage,
        String::from("testnet"),
        String::from("http://localhost:8545"),
        &vec![10, 0, 0, 0],
    )
    .expect("chain id fits");
    // Give the creator an entry on the chain: tokens under a fresh nonce.
    let credited = storage.balances_storage.add_tokens_on_chain(
        &p,
        chain_id,
        &Natural::from_u64(30_000_000_000_000),
        1,
    );
    assert!(credited);
    let daemon_id = register_daemon(
        &mut storage,
        &p,
        RegisterDaemonArgs {
            listen_chain_id: chain_id,
            ccmp_contract: String::from("0x5aaeb6053f3e94c9b9a09f33669435e7ef1beaed"),
            interval_in_secs: 60,
        },
        77,
    )
    .expect("registration passes");
    (storage, p, chain_id, daemon_id)
}

fn word(value: u64) -> Vec<u8> {
    let mut w = vec![0u8; 24];
    w.extend_from_slice(&value.to_be_bytes());
    w
}

/// The data section of one relay event aimed at `to_chain`.
fn event_data(to_chain: u64, payload: &[u8], receiver: &[u8]) -> Vec<u8> {
    let mut data = word(to_chain);
    let mut sender_word = vec![0u8; 12];
    sender_word.extend_from_slice(&[0x22; 20]);
    data.extend_from_slice(&sender_word);
    let off_m: u64 = 128;
    let off_r: u64 = 128 + 32 + payload.len() as u64;
    data.extend_from_slice(&word(off_m));
    data.extend_from_slice(&word(off_r));
    data.extend_from_slice(&word(payload.len() as u64));
    data.extend_from_slice(payload);
    data.extend_from_slice(&word(receiver.len() as u64));
    data.extend_from_slice(receiver);
    data
}

fn event_log(index: u64, to_chain: u64) -> RawLog {
    RawLog {
        topics: vec![message_event_signature(), word(index)],
        data: event_data(to_chain, &[0xBB, 0xCC], &[0x11; 20]),
    }
}

#[test]
fn register_without_cycles_is_refused() {
    let mut storage = fresh_storage();
    let p = caller();
    add_cycles(&mut storage, &p, &Natural::from_u64(5), relay_key_hex());
    let chain_id = add_evm_chain(
        &mut storage,
        String::from("testnet"),
        String::from("http://localhost:8545"),
        &vec![10, 0, 0, 0],
    )
    .unwrap();
    let r = register_daemon(
        &mut storage,
        &p,
        RegisterDaemonArgs {
            listen_chain_id: chain_id,
            ccmp_contract: String::from("0x5aaeb6053f3e94c9b9a09f33669435e7ef1beaed"),
            interval_in_secs: 60,
        },
        1,
    );
    assert!(matches!(
        r,
        Err(ccmp::methods::daemons::DaemonsError::InsufficientCycles)
    ));
}

#[test]
fn register_interval_bounds() {
    let (mut storage, p, chain_id, _) = populated_storage();
    let args = |secs: u64| RegisterDaemonArgs {
        listen_chain_id: chain_id,
        ccmp_contract: String::from("0x5aaeb6053f3e94c9b9a09f33669435e7ef1beaed"),
        interval_in_secs: secs,
    };
    assert!(matches!(
        register_daemon(&mut storage, &p, args(0), 1),
        Err(ccmp::methods::daemons::DaemonsError::ValidationErrors)
    ));
    assert!(register_daemon(&mut storage, &p, args(1), 2).is_ok());
    assert!(register_daemon(&mut storage, &p, args(3600), 3).is_ok());
    assert!(matches!(
        register_daemon(&mut storage, &p, args(3601), 4),
        Err(ccmp::methods::daemons::DaemonsError::ValidationErrors)
    ));
}

#[test]
fn listener_queues_two_events_and_advances_the_mark() {
    let (mut storage, p, chain_id, daemon_id) = populated_storage();
    let logs = vec![event_log(100, chain_id), event_log(101, chain_id)];
    let started = process_logs(&mut storage, daemon_id, 105, &logs).expect("logs parse");
    assert!(started);
    assert_eq!(storage.listened_messages.len(), 2);
    assert_eq!(storage.listened_messages[0].index, 100);
    assert_eq!(storage.listened_messages[1].index, 101);
    let balance = storage.balances_storage.get_balance(&p).unwrap();
    let entry = balance.get_entry(chain_id).unwrap();
    assert_eq!(entry.last_block, 105);
}

#[test]
fn listener_drops_events_for_unknown_chains() {
    let (mut storage, _, chain_id, daemon_id) = populated_storage();
    let logs = vec![event_log(100, chain_id), event_log(101, 999)];
    let started = process_logs(&mut storage, daemon_id, 105, &logs).expect("logs parse");
    assert!(started);
    assert_eq!(storage.listened_messages.len(), 1);
}

#[test]
fn listener_fails_the_whole_tick_on_a_malformed_event() {
    let (mut storage, p, chain_id, daemon_id) = populated_storage();
    let broken = RawLog {
        topics: vec![message_event_signature(), word(5)],
        data: vec![0u8; 16],
    };
    let logs = vec![event_log(100, chain_id), broken];
    assert!(process_logs(&mut storage, daemon_id, 105, &logs).is_err());
    assert_eq!(storage.listened_messages.len(), 0);
    let balance = storage.balances_storage.get_balance(&p).unwrap();
    assert_eq!(balance.get_entry(chain_id).unwrap().last_block, 0);
}

#[test]
fn last_block_never_moves_backwards() {
    let (mut storage, p, chain_id, _) = populated_storage();
    storage
        .balances_storage
        .update_last_block(&p, chain_id, 100);
    storage.balances_storage.update_last_block(&p, chain_id, 50);
    let balance = storage.balances_storage.get_balance(&p).unwrap();
    assert_eq!(balance.get_entry(chain_id).unwrap().last_block, 100);
}

#[test]
fn sign_and_write_produce_one_tracked_transaction() {
    let (mut storage, p, chain_id, daemon_id) = populated_storage();
    let logs = vec![event_log(100, chain_id)];
    process_logs(&mut storage, daemon_id, 105, &logs).unwrap();

    let batch = take_batch_to_sign(&mut storage);
    assert_eq!(batch.len(), 1);
    assert_eq!(storage.listened_messages.len(), 0);

    let digest = message_signing_digest(&storage, &batch[0]).expect("EVM chain known");
    assert_eq!(digest.len(), 32);

    let mut sk_bytes = [0u8; 32];
    sk_bytes[31] = 7;
    let sk = libsecp256k1::SecretKey::parse(&sk_bytes).unwrap();
    let lib_msg = libsecp256k1::Message::parse_slice(&digest).unwrap();
    let (sig, _) = libsecp256k1::sign(&lib_msg, &sk);
    let pk_bytes = libsecp256k1::PublicKey::from_secret_key(&sk)
        .serialize_compressed()
        .to_vec();
    let signed = batch[0]
        .attach_evm_signature(sig.serialize().to_vec(), &pk_bytes)
        .expect("recovery works");
    push_signed(&mut storage, signed);
    assert_eq!(storage.signed_messages.len(), 1);

    let to_write = take_batch_to_write(&mut storage);
    assert_eq!(to_write.len(), 1);
    assert_eq!(storage.signed_messages.len(), 0);

    let gas = Natural::from_u64(1_000_000_000);
    let plan = prepare_write(&mut storage, &to_write[0], &gas)
        .expect("key decodes")
        .expect("receiver is 20 bytes");
    assert_eq!(plan.nonce, 1);
    assert!(plan.gas_price.eq_u64(1_200_000_000));
    assert_eq!(plan.sender_address.len(), 20);

    record_write_success(
        &mut storage,
        to_write[0].clone(),
        String::from("aabb"),
        plan.gas_price,
    );
    assert_eq!(storage.pending_txs_storage.0.len(), 1);
    let balance = storage.balances_storage.get_balance(&p).unwrap();
    assert_eq!(balance.get_entry(chain_id).unwrap().tx_count, 1);
}

#[test]
fn writer_silently_drops_short_receivers() {
    let (mut storage, p, chain_id, daemon_id) = populated_storage();
    let msg = Message {
        index: 1,
        from_chain_id: chain_id,
        to_chain_id: chain_id,
        sender: vec![0x22; 20],
        message: vec![0xBB],
        receiver: vec![0x11; 19],
        signature: Some(vec![0u8; 65]),
        daemon_id,
    };
    let gas = Natural::from_u64(1_000_000_000);
    let plan = prepare_write(&mut storage, &msg, &gas).expect("key decodes");
    assert!(plan.is_none());
    assert_eq!(storage.pending_txs_storage.0.len(), 0);
    let balance = storage.balances_storage.get_balance(&p).unwrap();
    assert_eq!(balance.get_entry(chain_id).unwrap().tx_count, 0);
}

#[test]
fn failed_submission_returns_the_counter() {
    let (mut storage, p, chain_id, _) = populated_storage();
    let before = storage
        .balances_storage
        .get_balance(&p)
        .unwrap()
        .get_entry(chain_id)
        .unwrap()
        .tx_count;
    let result = storage
        .balances_storage
        .with_tx(&p, chain_id, |_nonce: u64| Err::<u64, u8>(9));
    assert!(result.is_err());
    let after = storage
        .balances_storage
        .get_balance(&p)
        .unwrap()
        .get_entry(chain_id)
        .unwrap()
        .tx_count;
    assert_eq!(before, after);
    assert_eq!(storage.pending_txs_storage.0.len(), 0);
}

#[test]
fn successful_submission_keeps_the_counter() {
    let (mut storage, p, chain_id, _) = populated_storage();
    let result = storage
        .balances_storage
        .with_tx(&p, chain_id, |nonce: u64| Ok::<u64, u8>(nonce));
    assert_eq!(result.unwrap(), 1);
    let after = storage
        .balances_storage
        .get_balance(&p)
        .unwrap()
        .get_entry(chain_id)
        .unwrap()
        .tx_count;
    assert_eq!(after, 1);
}

#[test]
fn checker_debits_gas_and_drops_the_entry() {
    let (mut storage, p, chain_id, daemon_id) = populated_storage();
    let tx = PendingTransaction {
        tx_hash: String::from("aabb"),
        message: Message {
            index: 1,
            from_chain_id: chain_id,
            to_chain_id: chain_id,
            sender: vec![0x22; 20],
            message: vec![0xBB],
            receiver: vec![0x11; 20],
            signature: Some(vec![0u8; 65]),
            daemon_id,
        },
        gas_price: Natural::from_u64(1_200_000_000),
    };
    let receipt = Some(TransactionReceipt {
        status: Some(1),
        to: None,
        gas_used: Some(Natural::from_u64(21_000)),
    });
    let done = check_evm(&mut storage, tx, &receipt);
    assert!(done);
    assert_eq!(storage.pending_txs_storage.0.len(), 0);
    let balance = storage.balances_storage.get_balance(&p).unwrap();
    let tokens = balance.get_entry(chain_id).unwrap().tokens;
    // 30_000_000_000_000 - 21_000 * 1_200_000_000
    assert!(tokens.eq_u64(4_800_000_000_000));
}

#[test]
fn checker_requeues_an_unaffordable_debit() {
    let (mut storage, p, chain_id, daemon_id) = populated_storage();
    let tx = PendingTransaction {
        tx_hash: String::from("aabb"),
        message: Message {
            index: 1,
            from_chain_id: chain_id,
            to_chain_id: chain_id,
            sender: vec![0x22; 20],
            message: vec![0xBB],
            receiver: vec![0x11; 20],
            signature: Some(vec![0u8; 65]),
            daemon_id,
        },
        // The debit would exceed the 30_000_000_000_000 tokens held.
        gas_price: Natural::from_u64(2_000_000_000),
    };
    let receipt = Some(TransactionReceipt {
        status: Some(1),
        to: None,
        gas_used: Some(Natural::from_u64(21_000)),
    });
    let done = check_evm(&mut storage, tx, &receipt);
    assert!(!done);
    assert_eq!(storage.pending_txs_storage.0.len(), 1);
    let balance = storage.balances_storage.get_balance(&p).unwrap();
    assert!(balance
        .get_entry(chain_id)
        .unwrap()
        .tokens
        .eq_u64(30_000_000_000_000));
}

#[test]
fn checker_requeues_without_a_receipt() {
    let (mut storage, p, chain_id, daemon_id) = populated_storage();
    let tx = PendingTransaction {
        tx_hash: String::from("aabb"),
        message: Message {
            index: 1,
            from_chain_id: chain_id,
            to_chain_id: chain_id,
            sender: vec![0x22; 20],
            message: vec![0xBB],
            receiver: vec![0x11; 20],
            signature: None,
            daemon_id,
        },
        gas_price: Natural::from_u64(1_200_000_000),
    };
    let done = check_evm(&mut storage, tx, &None);
    assert!(!done);
    assert_eq!(storage.pending_txs_storage.0.len(), 1);
    let balance = storage.balances_storage.get_balance(&p).unwrap();
    assert!(balance
        .get_entry(chain_id)
        .unwrap()
        .tokens
        .eq_u64(30_000_000_000_000));
}

#[test]
fn batch_drains_stop_at_the_bound() {
    let (mut storage, _, chain_id, daemon_id) = populated_storage();
    for i in 0..12u64 {
        storage
            .pending_txs_storage
            .add(PendingTransaction {
                tx_hash: format!("{:02x}", i),
                message: Message {
                    index: i,
                    from_chain_id: chain_id,
                    to_chain_id: chain_id,
                    sender: vec![],
                    message: vec![],
                    receiver: vec![0x11; 20],
                    signature: None,
                    daemon_id,
                },
                gas_price: Natural::from_u64(1),
            });
    }
    let first = take_pending_batch(&mut storage);
    assert_eq!(first.len(), 10);
    assert_eq!(first[0].message.index, 0);
    assert_eq!(storage.pending_txs_storage.0.len(), 2);
    let second = take_pending_batch(&mut storage);
    assert_eq!(second.len(), 2);
    assert_eq!(second[0].message.index, 10);
    assert_eq!(storage.pending_txs_storage.0.len(), 0);
}

#[test]
fn writer_groups_consecutive_destinations() {
    let msg = |chain: u64| Message {
        index: 0,
        from_chain_id: 0,
        to_chain_id: chain,
        sender: vec![],
        message: vec![],
        receiver: vec![0x11; 20],
        signature: None,
        daemon_id: 0,
    };
    let groups = group_by_destination(vec![msg(1), msg(1), msg(2), msg(1)]);
    assert_eq!(groups.len(), 3);
    assert_eq!(groups[0].len(), 2);
    assert_eq!(groups[0][0].to_chain_id, 1);
    assert_eq!(groups[1].len(), 1);
    assert_eq!(groups[1][0].to_chain_id, 2);
    assert_eq!(groups[2].len(), 1);
    assert_eq!(groups[2][0].to_chain_id, 1);
}

#[test]
fn gas_markup_is_a_fifth_more_after_rounding() {
    assert!(markup_gas_price(&Natural::from_u64(100)).eq_u64(120));
    assert!(markup_gas_price(&Natural::from_u64(105)).eq_u64(120));
    assert!(markup_gas_price(&Natural::from_u64(9)).eq_u64(0));
}
