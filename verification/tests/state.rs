use ccmp::jobs::checker::collect_checking_cycles;
use ccmp::methods::balances::{add_balance, add_cycles, add_tokens_to_evm_chain, get_balance};
use ccmp::methods::chains::{
    add_evm_chain, get_chain_metadata, remove_chain, update_evm_chain_rpc,
};
use ccmp::methods::controllers::{get_config, update_config};
use ccmp::methods::daemons::{
    get_daemon, get_daemons, register_daemon, start_daemon, stop_daemon, RegisterDaemonArgs,
};
use ccmp::migrations::{restore, snapshot};
use ccmp::natural::Natural;
use ccmp::types::config::{Config, ConfigUpdate};
use ccmp::types::job::JobType;
use ccmp::types::pending_tx::{TransactionInfo, TransactionReceipt};
use ccmp::types::principal::Principal;
use ccmp::types::{Storage, MINIMUM_CYCLES};
use ccmp::utils::address_of_pubkey_hex;

const PLENTY: u64 = 200_000_000_000;

fn fresh_storage() -> Storage {
    Storage::init(Config {
        key: String::from("relay-key"),
        signer_interval_secs: 5,
        writer_interval_secs: 7,
        checker_interval_secs: 9,
    })
}

fn caller() -> Principal {
    Principal::from_bytes(vec![9, 9, 9])
}

fn relay_key_hex() -> String {
    let mut sk_bytes = [0u8; 32];
    sk_bytes[31] = 7;
    let sk = libsecp256k1::SecretKey::parse(&sk_bytes).unwrap();
    let pk = libsecp256k1::PublicKey::from_secret_key(&sk);
    hex::encode(pk.serialize_compressed().to_vec())
}

#[test]
fn add_balance_is_idempotent_and_keeps_the_first_key() {
    let mut storage = fresh_storage();
    let p = caller();
    let first = add_balance(&mut storage, &p, String::from("key-one"));
    assert_eq!(first, "key-one");
    let second = add_balance(&mut storage, &p, String::from("key-two"));
    assert_eq!(second, "key-one");
}

#[test]
fn reduce_cycles_refuses_to_underflow() {
    let mut storage = fresh_storage();
    let p = caller();
    add_cycles(&mut storage, &p, &Natural::from_u64(100), String::from("k"));
    let reduced = storage
        .balances_storage
        .reduce_cycles(&p, &Natural::from_u64(101));
    assert!(!reduced);
    let balance = get_balance(&storage, &p).unwrap();
    assert!(balance.cycles.eq_u64(100));
    let reduced = storage
        .balances_storage
        .reduce_cycles(&p, &Natural::from_u64(100));
    assert!(reduced);
    let balance = get_balance(&storage, &p).unwrap();
    assert!(balance.cycles.eq_u64(0));
}

#[test]
fn a_nonce_is_never_credited_twice() {
    let mut storage = fresh_storage();
    let p = caller();
    add_cycles(&mut storage, &p, &Natural::from_u64(1), String::from("k"));
    assert!(storage
        .balances_storage
        .add_tokens_on_chain(&p, 0, &Natural::from_u64(10), 5));
    assert!(!storage
        .balances_storage
        .add_tokens_on_chain(&p, 0, &Natural::from_u64(10), 5));
    assert!(storage
        .balances_storage
        .add_tokens_on_chain(&p, 0, &Natural::from_u64(10), 6));
    let balance = get_balance(&storage, &p).unwrap();
    assert!(balance.get_entry(0).unwrap().tokens.eq_u64(20));
    assert!(storage.balances_storage.is_used_nonce(&p, 0, 5));
    assert!(!storage.balances_storage.is_used_nonce(&p, 0, 7));
}

#[test]
fn top_up_verification_checks_in_order() {
    let mut storage = fresh_storage();
    let p = caller();
    let chain_err = add_tokens_to_evm_chain(&mut storage, &p, 0, &None, &None);
    assert!(matches!(
        chain_err,
        Err(ccmp::methods::balances::BalancesError::BalanceDoesNotExist)
    ));

    add_cycles(&mut storage, &p, &Natural::from_u64(PLENTY), relay_key_hex());
    let chain_err = add_tokens_to_evm_chain(&mut storage, &p, 0, &None, &None);
    assert!(matches!(
        chain_err,
        Err(ccmp::methods::balances::BalancesError::ChainTypeIsNotEVM)
    ));

    let chain_id = add_evm_chain(
        &mut storage,
        String::from("testnet"),
        String::from("http://localhost:8545"),
        &vec![10, 0, 0, 0],
    )
    .unwrap();

    let missing = add_tokens_to_evm_chain(&mut storage, &p, chain_id, &None, &None);
    assert!(matches!(
        missing,
        Err(ccmp::methods::balances::BalancesError::TxDoesNotExist)
    ));

    let unfinalized = add_tokens_to_evm_chain(
        &mut storage,
        &p,
        chain_id,
        &Some(TransactionReceipt {
            status: Some(0),
            to: None,
            gas_used: None,
        }),
        &None,
    );
    assert!(matches!(
        unfinalized,
        Err(ccmp::methods::balances::BalancesError::TxIsNotFinalized)
    ));

    let owner = address_of_pubkey_hex(&relay_key_hex()).unwrap();
    let no_dest = add_tokens_to_evm_chain(
        &mut storage,
        &p,
        chain_id,
        &Some(TransactionReceipt {
            status: Some(1),
            to: None,
            gas_used: None,
        }),
        &None,
    );
    assert!(matches!(
        no_dest,
        Err(ccmp::methods::balances::BalancesError::TxWithoutDestination)
    ));

    let wrong_dest = add_tokens_to_evm_chain(
        &mut storage,
        &p,
        chain_id,
        &Some(TransactionReceipt {
            status: Some(1),
            to: Some(vec![0u8; 20]),
            gas_used: None,
        }),
        &None,
    );
    assert!(matches!(
        wrong_dest,
        Err(ccmp::methods::balances::BalancesError::TxDestinationIsNotBalanceAddress)
    ));

    let good_receipt = Some(TransactionReceipt {
        status: Some(1),
        to: Some(owner),
        gas_used: None,
    });
    let credited = add_tokens_to_evm_chain(
        &mut storage,
        &p,
        chain_id,
        &good_receipt,
        &Some(TransactionInfo {
            nonce: 4,
            value: Natural::from_u64(555),
        }),
    );
    assert!(credited.is_ok());
    let balance = get_balance(&storage, &p).unwrap();
    assert!(balance.get_entry(chain_id).unwrap().tokens.eq_u64(555));

    let replay = add_tokens_to_evm_chain(
        &mut storage,
        &p,
        chain_id,
        &good_receipt,
        &Some(TransactionInfo {
            nonce: 4,
            value: Natural::from_u64(555),
        }),
    );
    assert!(matches!(
        replay,
        Err(ccmp::methods::balances::BalancesError::NonceAlreadyUsed)
    ));
}

#[test]
fn daemons_are_visible_to_their_creators_only() {
    let mut storage = fresh_storage();
    let p = caller();
    let other = Principal::from_bytes(vec![7]);
    add_cycles(&mut storage, &p, &Natural::from_u64(PLENTY), relay_key_hex());
    let chain_id = add_evm_chain(
        &mut storage,
        String::from("testnet"),
        String::from("http://localhost:8545"),
        &vec![10, 0, 0, 0],
    )
    .unwrap();
    let id = register_daemon(
        &mut storage,
        &p,
        RegisterDaemonArgs {
            listen_chain_id: chain_id,
            ccmp_contract: String::from("0x5aaeb6053f3e94c9b9a09f33669435e7ef1beaed"),
            interval_in_secs: 60,
        },
        1,
    )
    .unwrap();
    assert!(get_daemon(&storage, &p, id).is_some());
    assert!(get_daemon(&storage, &other, id).is_none());
    assert_eq!(get_daemons(&storage, &p).len(), 1);
    assert_eq!(get_daemons(&storage, &other).len(), 0);
    assert!(matches!(
        stop_daemon(&mut storage, &other, id),
        Err(ccmp::methods::daemons::DaemonsError::NotDaemonCreator)
    ));
    let cancelled = stop_daemon(&mut storage, &p, id).unwrap();
    assert_eq!(cancelled, Some(1));
    assert!(!get_daemon(&storage, &p, id).unwrap().is_active);
    assert!(start_daemon(&mut storage, &p, id, 2).is_ok());
    assert!(get_daemon(&storage, &p, id).unwrap().is_active);
}

#[test]
fn low_credit_stops_the_daemon() {
    let mut storage = fresh_storage();
    let p = caller();
    add_cycles(
        &mut storage,
        &p,
        &Natural::from_u64(MINIMUM_CYCLES + 1_000_000),
        relay_key_hex(),
    );
    let chain_id = add_evm_chain(
        &mut storage,
        String::from("testnet"),
        String::from("http://localhost:8545"),
        &vec![10, 0, 0, 0],
    )
    .unwrap();
    let id = register_daemon(
        &mut storage,
        &p,
        RegisterDaemonArgs {
            listen_chain_id: chain_id,
            ccmp_contract: String::from("0x5aaeb6053f3e94c9b9a09f33669435e7ef1beaed"),
            interval_in_secs: 60,
        },
        1,
    )
    .unwrap();
    let cancelled = collect_checking_cycles(&mut storage, id, &p);
    assert_eq!(cancelled, Some(1));
    assert!(!get_daemon(&storage, &p, id).unwrap().is_active);
}

#[test]
fn restore_plan_names_each_active_daemon_once() {
    let mut storage = fresh_storage();
    let p = caller();
    add_cycles(&mut storage, &p, &Natural::from_u64(PLENTY), relay_key_hex());
    let chain_id = add_evm_chain(
        &mut storage,
        String::from("testnet"),
        String::from("http://localhost:8545"),
        &vec![10, 0, 0, 0],
    )
    .unwrap();
    let args = || RegisterDaemonArgs {
        listen_chain_id: chain_id,
        ccmp_contract: String::from("0x5aaeb6053f3e94c9b9a09f33669435e7ef1beaed"),
        interval_in_secs: 60,
    };
    let a = register_daemon(&mut storage, &p, args(), 1).unwrap();
    let b = register_daemon(&mut storage, &p, args(), 2).unwrap();
    let c = register_daemon(&mut storage, &p, args(), 3).unwrap();
    stop_daemon(&mut storage, &p, b).unwrap();
    let ids = storage.daemon_storage.active_daemon_ids();
    assert_eq!(ids, vec![a, c]);
}

#[test]
fn chains_can_be_added_updated_and_removed() {
    let mut storage = fresh_storage();
    let id = add_evm_chain(
        &mut storage,
        String::from("one"),
        String::from("http://a"),
        &vec![1, 0, 0, 0],
    )
    .unwrap();
    assert_eq!(id, 0);
    let meta = get_chain_metadata(&storage, id).unwrap();
    assert_eq!(meta.name, "one");
    assert!(matches!(meta.chain_type, ccmp::types::chains::ChainType::Evm));
    assert!(update_evm_chain_rpc(&mut storage, id, String::from("http://b")).is_ok());
    let chain = storage
        .chains_storage
        .evm_chains_storage
        .get_chain(id)
        .unwrap();
    assert_eq!(chain.rpc, "http://b");
    assert!(remove_chain(&mut storage, id).is_ok());
    assert!(get_chain_metadata(&storage, id).is_none());
    assert!(matches!(
        remove_chain(&mut storage, id),
        Err(ccmp::types::chains::ChainsStorageError::ChainNotFound)
    ));
    let listing = storage.chains_storage.get_chains_metadata();
    assert_eq!(listing.len(), 0);
}

#[test]
fn config_updates_need_a_controller() {
    let mut storage = fresh_storage();
    let change = ConfigUpdate {
        key: Some(String::from("other-key")),
        signer_interval_secs: Some(11),
        writer_interval_secs: None,
        checker_interval_secs: None,
    };
    assert!(update_config(&mut storage, false, &change, 1, 2, 3).is_err());
    assert!(get_config(&storage, false).is_err());
    assert!(update_config(&mut storage, true, &change, 1, 2, 3).is_ok());
    let config = get_config(&storage, true).unwrap();
    assert_eq!(config.key, "other-key");
    assert_eq!(config.signer_interval_secs, 11);
    assert_eq!(config.writer_interval_secs, 7);
    assert_eq!(config.checker_interval_secs, 9);
}

#[test]
fn job_rearming_keeps_one_timer() {
    let mut storage = fresh_storage();
    assert!(storage.signer_job.run(10));
    assert!(!storage.signer_job.run(11));
    assert_eq!(storage.signer_job.stop(), Some(10));
    assert_eq!(storage.signer_job.stop(), None);
    let cancelled = storage.signer_job.update_interval_secs(30, 12);
    assert_eq!(cancelled, None);
    assert_eq!(storage.signer_job.interval_secs(), 30);
    assert!(matches!(storage.signer_job.kind_value(), JobType::Signer));
}

#[test]
fn snapshot_then_restore_brings_everything_but_timers_back() {
    let mut storage = fresh_storage();
    let p = caller();
    add_cycles(&mut storage, &p, &Natural::from_u64(PLENTY), relay_key_hex());
    let chain_id = add_evm_chain(
        &mut storage,
        String::from("testnet"),
        String::from("http://localhost:8545"),
        &vec![10, 0, 0, 0],
    )
    .unwrap();
    assert!(storage.balances_storage.add_tokens_on_chain(
        &p,
        chain_id,
        &Natural::from_u64(777),
        3
    ));
    let id = register_daemon(
        &mut storage,
        &p,
        RegisterDaemonArgs {
            listen_chain_id: chain_id,
            ccmp_contract: String::from("0x5aaeb6053f3e94c9b9a09f33669435e7ef1beaed"),
            interval_in_secs: 60,
        },
        42,
    )
    .unwrap();
    storage.signer_job.run(10);

    let blob = snapshot(&storage);
    let mut back = restore(&blob).expect("a snapshot reads back");

    assert_eq!(back.key, storage.key);
    assert_eq!(back.public_key, storage.public_key);
    let meta = get_chain_metadata(&back, chain_id).unwrap();
    assert_eq!(meta.name, "testnet");
    let balance = back.balances_storage.get_balance(&p).unwrap();
    assert!(balance.cycles.eq_u64(PLENTY));
    assert!(balance.get_entry(chain_id).unwrap().tokens.eq_u64(777));
    assert!(back.balances_storage.is_used_nonce(&p, chain_id, 3));
    let daemon = back.daemon_storage.get_daemon(id).unwrap();
    assert!(daemon.is_active);
    assert_eq!(daemon.timer_id, None);
    assert_eq!(daemon.interval_secs, 60);
    assert_eq!(back.signer_job.interval_secs(), 5);
    assert!(back.signer_job.is_active());
    assert_eq!(back.signer_job.stop(), None);
    assert_eq!(back.listened_messages.len(), 0);

    // Re-arming after the restore follows the recorded duty flags.
    let ids = back.daemon_storage.active_daemon_ids();
    assert_eq!(ids, vec![id]);
    back.daemon_storage.start(id, 50);
    assert_eq!(back.daemon_storage.get_daemon(id).unwrap().timer_id, Some(50));
}

#[test]
fn garbage_does_not_restore() {
    assert!(restore(&vec![1, 2, 3]).is_none());
    assert!(restore(&Vec::new()).is_none());
}

#[test]
fn cached_public_key_round_trip() {
    let mut storage = fresh_storage();
    assert!(storage.cached_public_key().is_none());
    let hex_key = storage.set_public_key(&vec![0xAB, 0xCD]);
    assert_eq!(hex_key, "abcd");
    assert_eq!(storage.cached_public_key().unwrap(), "abcd");
}
