use bitcoin::hashes::hex::FromHex;
use btc_adapter::blockchainstate::{
    AddBlockError, AddHeaderError, Block, BlockchainState, ValidateHeaderError,
};
use btc_adapter::config::Config;
use btc_adapter::types::{Hash256, Header, NetworkKind, Work};

const BLOCK_1_HEX: &str = "010000006fe28c0ab6f1b372c1a6a246ae63f74f931e8365e15a089c68d6190000000000982051fd1e4ba744bbbe680e1fee14677ba1a3c3540bf7b1cdb606e857233e0e61bc6649ffff001d01e362990101000000010000000000000000000000000000000000000000000000000000000000000000ffffffff0704ffff001d0104ffffffff0100f2052a0100000043410496b538e853519c726a2c91e61ec11600ae1390813a627c66fb8be7947be63c52da7589379515d4e0a604f8141781e62294721166bf621e73a82cbf2342c858eeac00000000";

const BLOCK_2_HEX: &str = "010000004860eb18bf1b1620e37e9490fc8a427514416fd75159ab86688e9a8300000000d5fdcc541e25de1c7a5addedf24858b8bb665c9f36ef744ee42c316022c90f9bb0bc6649ffff001d08d2bd610101000000010000000000000000000000000000000000000000000000000000000000000000ffffffff0704ffff001d010bffffffff0100f2052a010000004341047211a824f55b505228e4c3d5194c1fcfaa15a456abdf37f9b9d97a4040afc073dee6c89064984f03385237d92167c13e236446b417ab79a0fcae412ae3316b77ac00000000";

fn config(network: NetworkKind) -> Config {
    Config { network, socks_proxy: None, idle_seconds: 5 }
}

fn to_hash(h: &bitcoin::BlockHash) -> Hash256 {
    Hash256::from_le_bytes(bitcoin::hashes::Hash::into_inner(*h))
}

fn to_header(h: &bitcoin::BlockHeader) -> Header {
    Header {
        version: h.version,
        prev_blockhash: to_hash(&h.prev_blockhash),
        merkle_root: Hash256::from_le_bytes(bitcoin::hashes::Hash::into_inner(h.merkle_root)),
        time: h.time,
        bits: h.bits,
        nonce: h.nonce,
    }
}

fn to_bitcoin_header(h: &Header) -> bitcoin::BlockHeader {
    bitcoin::BlockHeader {
        version: h.version,
        prev_blockhash: bitcoin::hashes::Hash::from_inner(h.prev_blockhash.to_le_bytes()),
        merkle_root: bitcoin::hashes::Hash::from_inner(h.merkle_root.to_le_bytes()),
        time: h.time,
        bits: h.bits,
        nonce: h.nonce,
    }
}

fn hash_of(h: &Header) -> Hash256 {
    to_hash(&to_bitcoin_header(h).block_hash())
}

fn decode_block(hex: &str) -> bitcoin::Block {
    let bytes = Vec::<u8>::from_hex(hex).unwrap();
    bitcoin::consensus::deserialize(&bytes).unwrap()
}

fn to_block(b: &bitcoin::Block) -> Block {
    Block { header: to_header(&b.header), txdata: b.txdata.clone() }
}

fn block_1() -> Block {
    to_block(&decode_block(BLOCK_1_HEX))
}

fn block_2() -> Block {
    to_block(&decode_block(BLOCK_2_HEX))
}

/// A regtest header on top of `prev_blockhash`, ten minutes after
/// `prev_time`, mined until its hash meets its target.
fn generate_header(prev_blockhash: Hash256, prev_time: u32, seed: u32) -> Header {
    let mut header = bitcoin::BlockHeader {
        version: 1,
        prev_blockhash: bitcoin::hashes::Hash::from_inner(prev_blockhash.to_le_bytes()),
        merkle_root: bitcoin::hashes::Hash::from_inner([(seed % 255) as u8; 32]),
        time: prev_time + 600,
        bits: 0x207fffff,
        nonce: 0,
    };
    let target = header.target();
    while header.validate_pow(&target).is_err() {
        header.nonce += 1;
    }
    to_header(&header)
}

/// `count` headers chained on `initial_hash`, none of whose hashes is in
/// `except`.
fn generate_headers(initial_hash: Hash256, initial_time: u32, count: u32, except: &[Hash256]) -> Vec<Header> {
    let mut headers = vec![];
    let mut prev_hash = initial_hash;
    let mut prev_time = initial_time;
    for _ in 0..count {
        let mut seed = 0;
        let mut header = generate_header(prev_hash, prev_time, seed);
        while except.contains(&hash_of(&header)) {
            seed += 1;
            header = generate_header(prev_hash, prev_time, seed);
        }
        prev_hash = hash_of(&header);
        prev_time = header.time;
        headers.push(header);
    }
    headers
}

#[test]
fn test_get_block() {
    let mut state = BlockchainState::new(&config(NetworkKind::Bitcoin));
    let block_1 = block_1();
    let block_1_hash = hash_of(&block_1.header);
    let block_2_hash = hash_of(&block_2().header);
    state.add_block(block_1).expect("should be able to add block 1");

    let mut cached_blocks = vec![];
    for hash in &[block_1_hash, block_2_hash] {
        if let Some(block) = state.get_block(hash) {
            cached_blocks.push(block);
        }
    }
    assert_eq!(cached_blocks.len(), 1);
    let block = cached_blocks.get(0).expect("there should be 1");
    assert_eq!(hash_of(&block.header), block_1_hash);
}

#[test]
fn test_adding_headers_successfully() {
    let mut state = BlockchainState::new(&config(NetworkKind::Regtest));
    let initial_header = state.genesis().header;
    let chain = generate_headers(hash_of(&initial_header), initial_header.time, 16, &[]);
    let chain_hashes: Vec<Hash256> = chain.iter().map(hash_of).collect();
    let last_hash = *chain_hashes.last().unwrap();

    let (added_headers, maybe_err) = state.add_headers(&chain);
    assert!(maybe_err.is_none());

    let last_cached = added_headers.last().unwrap();
    assert_eq!(hash_of(&last_cached.header), last_hash);
    assert_eq!(last_cached.height, 16);
    let tip = state.get_active_chain_tip();
    assert_eq!(tip.height, 16);
    assert_eq!(hash_of(&tip.header), last_hash);
}

#[test]
fn test_forks_when_adding_headers() {
    let mut state = BlockchainState::new(&config(NetworkKind::Regtest));
    let initial_header = state.genesis().header;
    let chain = generate_headers(hash_of(&initial_header), initial_header.time, 16, &[]);
    let chain_hashes: Vec<Hash256> = chain.iter().map(hash_of).collect();
    let last_chain_hash = chain_hashes.last().expect("missing last hash");

    let (_, maybe_err) = state.add_headers(&chain);
    assert!(maybe_err.is_none(), "unsuccessfully added first chain: {:?}", maybe_err);

    let fork_chain = generate_headers(chain_hashes[10], chain[10].time, 16, &chain_hashes);
    let fork_hashes: Vec<Hash256> = fork_chain.iter().map(hash_of).collect();
    let last_fork_hash = fork_hashes.last().expect("missing last hash");

    let (_, maybe_err) = state.add_headers(&fork_chain);
    assert!(maybe_err.is_none(), "unsuccessfully added fork chain: {:?}", maybe_err);

    assert_eq!(state.tips().len(), 2);
    assert_eq!(hash_of(&state.tips()[0].header), *last_fork_hash);
    assert_eq!(hash_of(&state.tips()[1].header), *last_chain_hash);
    assert_eq!(state.get_active_chain_tip().height, 27);
}

#[test]
fn test_adding_an_empty_headers_vector() {
    let mut state = BlockchainState::new(&config(NetworkKind::Bitcoin));
    let chain: Vec<Header> = vec![];
    let (added_headers, maybe_err) = state.add_headers(&chain);
    assert!(maybe_err.is_none());
    assert!(added_headers.is_empty());
    assert_eq!(state.get_active_chain_tip().height, 0);
}

#[test]
fn test_adding_headers_that_already_exist() {
    let mut state = BlockchainState::new(&config(NetworkKind::Regtest));
    let initial_header = state.genesis().header;
    let chain = generate_headers(hash_of(&initial_header), initial_header.time, 16, &[]);
    let chain_hashes: Vec<Hash256> = chain.iter().map(hash_of).collect();
    let last_hash = *chain_hashes.last().unwrap();

    let (added_headers, maybe_err) = state.add_headers(&chain);
    assert!(maybe_err.is_none());
    assert_eq!(added_headers.len(), 16);

    let last_cached = added_headers.last().unwrap();
    assert_eq!(hash_of(&last_cached.header), last_hash);
    assert_eq!(last_cached.height, 16);

    let (added_headers, maybe_err) = state.add_headers(&chain);
    assert!(maybe_err.is_none());
    assert!(added_headers.is_empty());
}

#[test]
fn test_adding_headers_with_an_invalid_header() {
    let mut state = BlockchainState::new(&config(NetworkKind::Regtest));
    let initial_header = state.genesis().header;
    let mut chain = generate_headers(hash_of(&initial_header), initial_header.time, 16, &[]);
    chain[10].prev_blockhash = Hash256::zero();
    let chain_hashes: Vec<Hash256> = chain.iter().map(hash_of).collect();
    let last_hash = chain_hashes[10];

    let (added_headers, maybe_err) = state.add_headers(&chain);

    assert_eq!(added_headers.len(), 10);
    assert!(matches!(
        maybe_err,
        Some(AddHeaderError::InvalidHeader(block_hash, ValidateHeaderError::PrevHeaderNotFound))
            if block_hash == last_hash
    ));

    let tip = state.get_active_chain_tip();
    assert_eq!(tip.height, 10);
}

#[test]
fn test_adding_blocks_to_the_cache() {
    let block_1 = block_1();
    let mut block_2 = block_2();
    let mut state = BlockchainState::new(&config(NetworkKind::Bitcoin));

    let block_2_hash = hash_of(&block_2.header);
    let result = state.add_block(to_block(&decode_block(BLOCK_2_HEX)));
    assert!(matches!(
        result,
        Err(AddBlockError::Header(AddHeaderError::InvalidHeader(stop_hash, ValidateHeaderError::PrevHeaderNotFound)))
            if stop_hash == block_2_hash
    ));

    let result = state.add_block(block_1);
    assert!(matches!(result, Ok(height) if height == 1));

    block_2.header.merkle_root = Hash256::zero();
    let block_2_hash = hash_of(&block_2.header);
    let result = state.add_block(block_2);
    assert!(matches!(result, Err(AddBlockError::InvalidMerkleRoot(stop_hash)) if stop_hash == block_2_hash));
}

#[test]
fn test_pruning_blocks_from_the_cache() {
    let mut state = BlockchainState::new(&config(NetworkKind::Bitcoin));
    let block_1_hash = hash_of(&block_1().header);
    let block_2_hash = hash_of(&block_2().header);
    state.add_block(block_1()).unwrap();
    state.add_block(block_2()).unwrap();

    state.prune_blocks(&[block_2_hash]);
    assert!(state.get_block(&block_1_hash).is_some());
    assert!(state.get_block(&block_2_hash).is_none());
}

#[test]
fn test_pruning_blocks_below_a_given_height_from_the_cache() {
    let mut state = BlockchainState::new(&config(NetworkKind::Bitcoin));
    let block_1_hash = hash_of(&block_1().header);
    let block_2_hash = hash_of(&block_2().header);
    state.add_block(block_1()).unwrap();
    state.add_block(block_2()).unwrap();

    state.prune_blocks_below_height(2);
    assert!(state.get_block(&block_1_hash).is_none());
    assert!(state.get_block(&block_2_hash).is_some());
}

#[test]
fn test_block_cache_size() {
    let mut state = BlockchainState::new(&config(NetworkKind::Bitcoin));
    let block_cache_size = state.get_block_cache_size();
    assert_eq!(block_cache_size, 0);

    state.add_block(block_1()).unwrap();
    state.add_block(block_2()).unwrap();

    let expected_cache_size = decode_block(BLOCK_1_HEX).size() + decode_block(BLOCK_2_HEX).size();
    let block_cache_size = state.get_block_cache_size();
    assert_eq!(expected_cache_size, block_cache_size);
}

#[test]
fn test_sorted_tip() {
    let mut state = BlockchainState::new(&config(NetworkKind::Regtest));
    let h1 = state.genesis().header;
    let h2 = generate_header(hash_of(&h1), h1.time, 0);
    let _ = state.add_headers(&[h2]);
    assert_eq!(state.get_active_chain_tip().header, h2);

    let h2f = generate_header(hash_of(&h1), h1.time, 1);
    let h3f = generate_header(hash_of(&h2f), h2f.time, 0);
    let h4f_invalid = generate_header(hash_of(&h2f), 0, 0);
    let _ = state.add_headers(&[h2f, h3f, h4f_invalid]);
    assert_eq!(state.get_active_chain_tip().header, h3f);

    let h3 = generate_header(hash_of(&h2), h2.time, 0);
    let h4 = generate_header(hash_of(&h3), h3.time, 0);
    state.add_block(Block { header: h3, txdata: Vec::new() }).unwrap();
    state.add_block(Block { header: h4, txdata: Vec::new() }).unwrap();
    assert_eq!(state.get_active_chain_tip().header, h4);
}

#[test]
fn mainnet_blocks_decode_to_their_known_hashes() {
    let expected_1 = bitcoin::BlockHash::from_hex("00000000839a8e6886ab5951d76f411475428afc90947ee320161bbf18eb6048").unwrap();
    let expected_2 = bitcoin::BlockHash::from_hex("000000006a625f06636b8bb6ac7b960a8d03705d1ace08b1a19da3fdcc99ddbd").unwrap();
    assert_eq!(hash_of(&block_1().header), to_hash(&expected_1));
    assert_eq!(hash_of(&block_2().header), to_hash(&expected_2));
}

#[test]
fn genesis_matches_the_network() {
    let state = BlockchainState::new(&config(NetworkKind::Regtest));
    let genesis = bitcoin::blockdata::constants::genesis_block(bitcoin::Network::Regtest).header;
    assert_eq!(state.genesis().header, to_header(&genesis));
    assert_eq!(state.genesis().hash, to_hash(&genesis.block_hash()));
    assert_eq!(state.genesis().height, 0);
    let w = genesis.work().0;
    let expected = Work {
        hi: ((w[3] as u128) << 64) | (w[2] as u128),
        lo: ((w[1] as u128) << 64) | (w[0] as u128),
    };
    assert_eq!(state.genesis().work, expected);
    assert_eq!(state.header_count(), 1);
    assert!(state.is_block_hash_known(&to_hash(&genesis.block_hash())));
}

#[test]
fn heights_and_work_follow_the_chain() {
    let mut state = BlockchainState::new(&config(NetworkKind::Regtest));
    let genesis = state.genesis().header;
    let genesis_work = state.genesis().work;
    let chain = generate_headers(hash_of(&genesis), genesis.time, 5, &[]);
    let (added, err) = state.add_headers(&chain);
    assert!(err.is_none());
    let mut work = genesis_work;
    for (i, cached) in added.iter().enumerate() {
        let header_work = bitcoin::BlockHeader::work(&to_bitcoin_header(&cached.header)).0;
        work = work.add(Work {
            hi: ((header_work[3] as u128) << 64) | (header_work[2] as u128),
            lo: ((header_work[1] as u128) << 64) | (header_work[0] as u128),
        });
        assert_eq!(cached.height as usize, i + 1);
        assert_eq!(cached.work, work);
    }
    let parent = state.get_cached_header(&hash_of(&chain[0])).unwrap();
    assert_eq!(parent.children.len(), 1);
}

#[test]
fn locator_of_a_sixteen_header_chain() {
    let mut state = BlockchainState::new(&config(NetworkKind::Regtest));
    let genesis = state.genesis().header;
    let chain = generate_headers(hash_of(&genesis), genesis.time, 16, &[]);
    let (_, err) = state.add_headers(&chain);
    assert!(err.is_none());
    let hashes: Vec<Hash256> = chain.iter().map(hash_of).collect();
    let locator = state.locator_hashes();
    let mut expected: Vec<Hash256> = vec![];
    for height in [16usize, 15, 14, 13, 12, 11, 10, 9, 8, 6, 2] {
        expected.push(hashes[height - 1]);
    }
    expected.push(hash_of(&genesis));
    assert_eq!(locator, expected);
}

#[test]
fn locator_of_genesis_alone() {
    let state = BlockchainState::new(&config(NetworkKind::Regtest));
    let locator = state.locator_hashes();
    assert_eq!(locator, vec![state.genesis().hash]);
}

#[test]
fn pruning_absent_hashes_and_clearing() {
    let mut state = BlockchainState::new(&config(NetworkKind::Bitcoin));
    state.add_block(block_1()).unwrap();
    state.prune_blocks(&[Hash256(1, 2, 3, 4)]);
    assert!(state.get_block(&hash_of(&block_1().header)).is_some());
    state.clear_blocks();
    assert!(state.get_block(&hash_of(&block_1().header)).is_none());
    assert_eq!(state.get_block_cache_size(), 0);
}

#[test]
fn adding_a_block_twice_keeps_one_copy() {
    let mut state = BlockchainState::new(&config(NetworkKind::Bitcoin));
    assert_eq!(state.add_block(block_1()), Ok(1));
    assert_eq!(state.add_block(block_1()), Ok(1));
    assert_eq!(state.get_block_cache_size(), decode_block(BLOCK_1_HEX).size());
    assert_eq!(state.header_count(), 2);
}

#[test]
fn work_addition_carries_and_wraps() {
    let a = Work { hi: 0, lo: u128::MAX };
    let b = Work { hi: 0, lo: 1 };
    assert_eq!(a.add(b), Work { hi: 1, lo: 0 });
    let top = Work { hi: u128::MAX, lo: u128::MAX };
    assert_eq!(top.add(b), Work { hi: 0, lo: 0 });
    assert!(Work { hi: 1, lo: 0 }.gt(&a));
    assert!(!a.gt(&a));
}

#[test]
fn hash_bytes_round_trip() {
    let mut bytes = [0u8; 32];
    for (i, b) in bytes.iter_mut().enumerate() {
        *b = i as u8;
    }
    let h = Hash256::from_le_bytes(bytes);
    assert_eq!(h.0, 0x0706050403020100);
    assert_eq!(h.to_le_bytes(), bytes);
}

#[test]
fn header_older_than_its_ancestors_is_rejected() {
    let mut state = BlockchainState::new(&config(NetworkKind::Regtest));
    let genesis = state.genesis().header;
    let h2 = generate_header(hash_of(&genesis), genesis.time, 0);
    let stale = generate_header(hash_of(&h2), 0, 0);
    let (added, err) = state.add_headers(&[h2, stale]);
    assert_eq!(added.len(), 1);
    assert_eq!(err, Some(AddHeaderError::InvalidHeader(hash_of(&stale), ValidateHeaderError::HeaderIsOld)));
    assert!(!state.is_block_hash_known(&hash_of(&stale)));
    assert_eq!(state.tips().len(), 1);
}

#[test]
fn parent_time_near_the_end_of_u32_is_refused_before_validation() {
    let mut state = BlockchainState::new(&config(NetworkKind::Regtest));
    let genesis = state.genesis().header;
    let late = generate_header(hash_of(&genesis), u32::MAX - 700, 0);
    let child = generate_header(hash_of(&late), u32::MAX - 600, 0);
    let (added, err) = state.add_headers(&[late, child]);
    assert_eq!(added.len(), 1);
    assert_eq!(err, Some(AddHeaderError::TimestampOutOfRange(hash_of(&child))));
    assert!(!state.is_block_hash_known(&hash_of(&child)));
}

#[test]
fn genesis_headers_of_every_network() {
    let pairs = [
        (NetworkKind::Bitcoin, bitcoin::Network::Bitcoin),
        (NetworkKind::Testnet, bitcoin::Network::Testnet),
        (NetworkKind::Signet, bitcoin::Network::Signet),
        (NetworkKind::Regtest, bitcoin::Network::Regtest),
    ];
    for (kind, network) in pairs {
        let state = BlockchainState::new(&config(kind));
        let expected = bitcoin::blockdata::constants::genesis_block(network).header;
        assert_eq!(state.genesis().header, to_header(&expected));
        assert_eq!(state.genesis().header.merkle_root, Hash256(0xb2127b7afdeda33b, 0x618f76673e2cc77a, 0x32518a88c31bc87f, 0x4a5e1e4baab89f3a));
    }
}

#[test]
fn block_with_matching_root_and_known_header_is_cached() {
    let mut state = BlockchainState::new(&config(NetworkKind::Bitcoin));
    let header_only = block_1().header;
    let (added, err) = state.add_headers(&[header_only]);
    assert!(err.is_none());
    assert_eq!(added.len(), 1);
    assert_eq!(state.add_block(block_1()), Ok(1));
    assert!(state.get_block(&hash_of(&header_only)).is_some());
    assert_eq!(state.tips().len(), 1);
}

fn bitcoin_work(bits: u32) -> Work {
    let header = bitcoin::BlockHeader {
        version: 1,
        prev_blockhash: bitcoin::hashes::Hash::from_inner([0u8; 32]),
        merkle_root: bitcoin::hashes::Hash::from_inner([0u8; 32]),
        time: 0,
        bits,
        nonce: 0,
    };
    let w = header.work().0;
    Work { hi: ((w[3] as u128) << 64) | (w[2] as u128), lo: ((w[1] as u128) << 64) | (w[0] as u128) }
}

#[test]
fn header_work_follows_the_compact_target() {
    for bits in [0x1d00ffffu32, 0x207fffff, 0x1e0377ae, 0x04800000, 0x03800000, 0x02008000, 0x01003456] {
        let header = Header {
            version: 1,
            prev_blockhash: Hash256::zero(),
            merkle_root: Hash256::zero(),
            time: 0,
            bits,
            nonce: 0,
        };
        assert_eq!(btc_adapter::bitcoin_ops::compute_header_work(&header), bitcoin_work(bits));
    }
    let negative = Header { version: 1, prev_blockhash: Hash256::zero(), merkle_root: Hash256::zero(), time: 0, bits: 0x04800000, nonce: 0 };
    assert_eq!(btc_adapter::bitcoin_ops::compute_header_work(&negative), Work { hi: 0, lo: 0 });
}

#[test]
fn block_ids_and_size_come_from_its_transactions() {
    let block = decode_block(BLOCK_1_HEX);
    let ids: Vec<Hash256> = block.txdata.iter().map(btc_adapter::bitcoin_ops::compute_txid).collect();
    assert_eq!(ids.len(), 1);
    assert_eq!(ids[0], Hash256::from_le_bytes(bitcoin::hashes::Hash::into_inner(block.txdata[0].txid())));
    let lib_block = to_block(&block);
    assert_eq!(
        btc_adapter::bitcoin_ops::compute_block_size(&lib_block.header, &lib_block.txdata),
        block.size()
    );
    assert_eq!(btc_adapter::bitcoin_ops::compute_merkle_root(&ids), Some(lib_block.header.merkle_root));
}
