use btc_adapter::transaction_manager::{
    Channel, ChannelError, Command, Inventory, NetworkMessage, PeerAddr, TransactionManager,
    MAXIMUM_TRANSACTION_PER_INV, TX_CACHE_SIZE, TX_CACHE_TIMEOUT_PERIOD_SECS,
};
use btc_adapter::types::{Hash256, Txid};
use std::collections::VecDeque;

struct TestChannel {
    connections: Vec<PeerAddr>,
    commands: VecDeque<Command>,
}

impl TestChannel {
    fn new(connections: Vec<PeerAddr>) -> Self {
        TestChannel { connections, commands: VecDeque::new() }
    }

    fn command_count(&self) -> usize {
        self.commands.len()
    }

    fn pop_front(&mut self) -> Option<Command> {
        self.commands.pop_front()
    }

    fn add_address(&mut self, address: PeerAddr) {
        self.connections.push(address);
    }
}

impl Channel for TestChannel {
    fn available_connections(&self) -> Vec<PeerAddr> {
        self.connections.clone()
    }

    fn send(&mut self, command: Command) -> Result<(), ChannelError> {
        self.commands.push_back(command);
        Ok(())
    }
}

/// The IPv4 address `a.b.c.d`, mapped into IPv6, with `port`.
fn addr(a: u8, b: u8, c: u8, d: u8, port: u16) -> PeerAddr {
    let v4 = ((a as u128) << 24) | ((b as u128) << 16) | ((c as u128) << 8) | (d as u128);
    PeerAddr { ip: (0xffffu128 << 32) | v4, port }
}

fn get_transaction() -> bitcoin::Transaction {
    let block = bitcoin::blockdata::constants::genesis_block(bitcoin::Network::Regtest);
    block.txdata.first().cloned().expect("There should be a transaction here.")
}

fn txid_of(tx: &bitcoin::Transaction) -> Txid {
    Hash256::from_le_bytes(bitcoin::hashes::Hash::into_inner(tx.txid()))
}

fn now() -> u64 {
    std::time::SystemTime::now().duration_since(std::time::UNIX_EPOCH).unwrap().as_secs()
}

fn inventory_of(command: Command) -> Vec<Inventory> {
    if let NetworkMessage::Inv(inv) = command.message {
        inv
    } else {
        vec![]
    }
}

fn is_inv(command: &Command) -> bool {
    matches!(command.message, NetworkMessage::Inv(_))
}

fn tx_in(command: &Command) -> Option<Txid> {
    if let NetworkMessage::Tx(raw) = &command.message {
        let tx: bitcoin::Transaction = bitcoin::consensus::deserialize(raw).ok()?;
        Some(txid_of(&tx))
    } else {
        None
    }
}

#[test]
fn test_reap() {
    let mut manager = TransactionManager::new();
    let transaction = get_transaction();
    let raw_tx = bitcoin::consensus::serialize(&transaction);
    manager.send_transaction(&raw_tx);
    assert_eq!(manager.transaction_count(), 1);
    manager.reap();
    assert_eq!(manager.transaction_count(), 1);

    let info = manager.get_transaction_info(&txid_of(&transaction)).expect("transaction should be map");
    let later = info.timeout_at + TX_CACHE_TIMEOUT_PERIOD_SECS;
    manager.reap_at(later);
    assert_eq!(manager.transaction_count(), 0);
}

#[test]
fn test_broadcast_txids() {
    let mut channel = TestChannel::new(vec![addr(127, 0, 0, 1, 8333)]);
    let mut manager = TransactionManager::new();
    let transaction = get_transaction();
    let raw_tx = bitcoin::consensus::serialize(&transaction);
    let txid = txid_of(&transaction);
    manager.send_transaction(&raw_tx);
    assert_eq!(manager.transaction_count(), 1);
    let info = manager.get_transaction_info(&txid).expect("transaction should be map");
    assert!(info.advertised.is_empty());

    let commands = manager.advertise_txids(&channel.available_connections());
    for command in commands {
        channel.send(command).unwrap();
    }
    let info = manager.get_transaction_info(&txid).expect("transaction should be map");
    assert!(info.advertised.len() == 1);
    assert_eq!(channel.command_count(), 1);
    let command = channel.pop_front().expect("There should be one.");
    assert!(command.address.is_some());
    assert!(is_inv(&command));
    let inventory = inventory_of(command);
    assert!(matches!(inventory.first().expect("should be one entry"), Inventory::Transaction(ctxid) if *ctxid == txid));
}

#[test]
fn test_adapter_transaction_cache_full() {
    let mut manager = TransactionManager::new();
    let mut first_tx = get_transaction();
    first_tx.lock_time = u32::MAX;
    manager.send_transaction(&bitcoin::consensus::serialize(&first_tx));

    for i in 0..TX_CACHE_SIZE {
        let mut transaction = get_transaction();
        transaction.lock_time = i as u32;
        manager.send_transaction(&bitcoin::consensus::serialize(&transaction));
    }
    assert_eq!(manager.transaction_count(), TX_CACHE_SIZE);
    assert!(manager.get_transaction_info(&txid_of(&first_tx)).is_none());
}

#[test]
fn test_adapter_dont_readvertise() {
    let address = addr(127, 0, 0, 1, 8333);
    let mut channel = TestChannel::new(vec![address]);
    let mut manager = TransactionManager::new();

    let mut transaction = get_transaction();
    transaction.lock_time = 0;
    manager.send_transaction(&bitcoin::consensus::serialize(&transaction));
    manager.tick(&mut channel);
    channel.pop_front().unwrap();

    manager
        .process_bitcoin_network_message(
            &mut channel,
            address,
            &NetworkMessage::GetData(vec![Inventory::Transaction(txid_of(&transaction))]),
        )
        .unwrap();
    channel.pop_front().unwrap();

    manager.tick(&mut channel);
    assert_eq!(channel.command_count(), 0);
    let info = manager.get_transaction_info(&txid_of(&transaction)).unwrap();
    assert_eq!(info.advertised.len(), 1);
    assert_eq!(info.advertised.iter().find(|a| **a == address), Some(&address));
}

#[test]
fn test_adapter_dont_readvertise_multiple_peers() {
    let address1 = addr(127, 0, 0, 1, 8333);
    let address2 = addr(127, 0, 0, 1, 8334);
    let mut channel = TestChannel::new(vec![address1, address2]);
    let mut manager = TransactionManager::new();

    let mut transaction = get_transaction();
    transaction.lock_time = 0;
    manager.send_transaction(&bitcoin::consensus::serialize(&transaction));
    manager.tick(&mut channel);
    assert_eq!(channel.command_count(), 2);
    channel.pop_front().unwrap();
    channel.pop_front().unwrap();

    manager
        .process_bitcoin_network_message(
            &mut channel,
            address1,
            &NetworkMessage::GetData(vec![Inventory::Transaction(txid_of(&transaction))]),
        )
        .unwrap();
    channel.pop_front().unwrap();
    assert_eq!(channel.command_count(), 0);

    manager.tick(&mut channel);
    assert_eq!(channel.command_count(), 0);
}

#[test]
fn test_adapter_advertise_new_peer() {
    let address1 = addr(127, 0, 0, 1, 8333);
    let mut channel = TestChannel::new(vec![address1]);
    let mut manager = TransactionManager::new();

    let mut transaction = get_transaction();
    transaction.lock_time = 0;
    manager.send_transaction(&bitcoin::consensus::serialize(&transaction));
    manager.tick(&mut channel);
    assert_eq!(channel.command_count(), 1);
    channel.pop_front().unwrap();

    manager
        .process_bitcoin_network_message(
            &mut channel,
            address1,
            &NetworkMessage::GetData(vec![Inventory::Transaction(txid_of(&transaction))]),
        )
        .unwrap();
    channel.pop_front().unwrap();
    assert_eq!(channel.command_count(), 0);

    manager.tick(&mut channel);
    assert_eq!(channel.command_count(), 0);

    let address2 = addr(127, 0, 0, 2, 8333);
    channel.add_address(address2);
    manager.tick(&mut channel);

    let command = channel.pop_front().unwrap();
    assert_eq!(command.address, Some(address2));
    assert_eq!(inventory_of(command), vec![Inventory::Transaction(txid_of(&transaction))]);
}

#[test]
fn test_process_bitcoin_network_message() {
    let address = addr(127, 0, 0, 1, 8333);
    let mut channel = TestChannel::new(vec![address]);
    let mut manager = TransactionManager::new();
    let transaction = get_transaction();
    let txid = txid_of(&transaction);
    manager.send_transaction(&bitcoin::consensus::serialize(&transaction));
    assert_eq!(manager.transaction_count(), 1);
    manager
        .process_bitcoin_network_message(
            &mut channel,
            address,
            &NetworkMessage::GetData(vec![Inventory::Transaction(txid)]),
        )
        .ok();
    assert_eq!(channel.command_count(), 1);
    let command = channel.pop_front().unwrap();
    assert_eq!(tx_in(&command), Some(txid));
}

#[test]
fn test_invalid_process_bitcoin_network_message() {
    let num_transaction = MAXIMUM_TRANSACTION_PER_INV + 1;
    let address = addr(127, 0, 0, 1, 8333);
    let mut channel = TestChannel::new(vec![address]);
    let mut manager = TransactionManager::new();

    let mut inventory = vec![];
    for i in 0..num_transaction {
        let mut transaction = get_transaction();
        transaction.lock_time = i as u32;
        inventory.push(Inventory::Transaction(txid_of(&transaction)));
    }
    manager
        .process_bitcoin_network_message(&mut channel, address, &NetworkMessage::GetData(inventory))
        .unwrap_err();
}

#[test]
fn test_tick() {
    let address = addr(127, 0, 0, 1, 8333);
    let mut channel = TestChannel::new(vec![address]);
    let mut manager = TransactionManager::new();
    let transaction = get_transaction();
    let raw_tx = bitcoin::consensus::serialize(&transaction);
    let txid = txid_of(&transaction);
    manager.send_transaction(&raw_tx);
    manager.tick(&mut channel);
    manager
        .process_bitcoin_network_message(
            &mut channel,
            address,
            &NetworkMessage::GetData(vec![Inventory::Transaction(txid)]),
        )
        .ok();
    assert_eq!(channel.command_count(), 2);
    assert_eq!(manager.transaction_count(), 1);

    let command = channel.pop_front().unwrap();
    assert!(is_inv(&command));
    let inventory = inventory_of(command);
    assert!(matches!(inventory.first().expect("should be one entry"), Inventory::Transaction(ctxid) if *ctxid == txid));

    let command = channel.pop_front().unwrap();
    assert_eq!(tx_in(&command), Some(txid));

    manager.send_transaction(&raw_tx);
    let info = manager.get_transaction_info(&txid).expect("transaction should be in the map");
    let later = info.timeout_at + TX_CACHE_TIMEOUT_PERIOD_SECS;
    let commands = manager.tick_at(&channel.available_connections(), later);
    assert!(commands.is_empty());
    assert_eq!(manager.transaction_count(), 0);
}

#[test]
fn test_make_idle() {
    let mut manager = TransactionManager::new();
    let transaction = get_transaction();
    let txid = txid_of(&transaction);
    manager.send_transaction(&bitcoin::consensus::serialize(&transaction));

    assert_eq!(manager.transaction_count(), 1);
    assert!(manager.get_transaction_info(&txid).is_some());

    manager.make_idle();
    assert_eq!(manager.transaction_count(), 0);
    assert!(manager.get_transaction_info(&txid).is_none());
}

#[test]
fn resending_keeps_the_timeout() {
    let mut manager = TransactionManager::new();
    let raw_tx = bitcoin::consensus::serialize(&get_transaction());
    manager.send_transaction_at(&raw_tx, 1000);
    manager.send_transaction_at(&raw_tx, 5000);
    let info = manager.get_transaction_info(&txid_of(&get_transaction())).unwrap();
    assert_eq!(info.timeout_at, 1600);
    assert_eq!(manager.transaction_count(), 1);
}

#[test]
fn undecodable_bytes_are_dropped() {
    let mut manager = TransactionManager::new();
    manager.send_transaction(&[1, 2, 3]);
    assert_eq!(manager.transaction_count(), 0);
    let mut raw_tx = bitcoin::consensus::serialize(&get_transaction());
    raw_tx.push(0);
    manager.send_transaction(&raw_tx);
    assert_eq!(manager.transaction_count(), 0);
}

#[test]
fn reaping_keeps_order_and_fresh_entries() {
    let mut manager = TransactionManager::new();
    let mut txids = vec![];
    for i in 0..3u32 {
        let mut transaction = get_transaction();
        transaction.lock_time = i;
        txids.push(txid_of(&transaction));
        manager.send_transaction_at(&bitcoin::consensus::serialize(&transaction), 100 * (i as u64));
    }
    manager.reap_at(700);
    assert_eq!(manager.transaction_count(), 2);
    assert!(manager.get_transaction_info(&txids[0]).is_none());
    let commands = manager.advertise_txids(&vec![addr(10, 0, 0, 1, 8333)]);
    assert_eq!(commands.len(), 1);
    let inventory = inventory_of(commands.into_iter().next().unwrap());
    assert_eq!(inventory, vec![Inventory::Transaction(txids[1]), Inventory::Transaction(txids[2])]);
}

#[test]
fn advertising_to_a_repeated_peer_sends_once() {
    let mut manager = TransactionManager::new();
    manager.send_transaction_at(&bitcoin::consensus::serialize(&get_transaction()), now());
    let peer = addr(10, 0, 0, 2, 8333);
    let commands = manager.advertise_txids(&vec![peer, peer]);
    assert_eq!(commands.len(), 1);
    let info = manager.get_transaction_info(&txid_of(&get_transaction())).unwrap();
    assert_eq!(info.advertised, vec![peer]);
}

#[test]
fn getdata_ignores_unknown_and_other_items() {
    let manager = TransactionManager::new();
    let peer = addr(10, 0, 0, 3, 8333);
    let request = NetworkMessage::GetData(vec![Inventory::Other, Inventory::Transaction(Hash256(1, 2, 3, 4))]);
    let commands = manager.getdata_commands(peer, &request).ok().unwrap();
    assert!(commands.is_empty());
    let commands = manager.getdata_commands(peer, &NetworkMessage::Other).ok().unwrap();
    assert!(commands.is_empty());
}
