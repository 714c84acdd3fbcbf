//! The calls that the state engine makes into the `bitcoin` crate, with the
//! contracts that the rest of the library relies on.
use crate::types::{work_modulus, Hash256, Header, NetworkKind, Txid, Work};
use vstd::arithmetic::power::pow;
use vstd::prelude::*;

verus! {

/// The double-SHA256 hash of a header's consensus encoding.
pub uninterp spec fn block_hash_of(h: Header) -> Hash256;

/// The target that a header's compact `bits` encode: a 24-bit mantissa,
/// shifted right for an exponent of at most 3 and scaled by
/// `256^(exponent - 3)` otherwise, kept to 256 bits; a mantissa (after the
/// right shift) above `0x7FFFFF` is negative and gives target 0.
pub open spec fn compact_target(bits: u32) -> nat {
    let expt = (bits >> 24u32) as nat;
    let raw = (bits & 0xFFFFFFu32) as nat;
    let mant = if expt <= 3 {
        raw / (pow(256, (3 - expt) as nat) as nat)
    } else {
        raw
    };
    if mant > 0x7FFFFF {
        0
    } else if expt <= 3 {
        mant
    } else {
        ((mant * pow(256, (expt - 3) as nat)) % (work_modulus() as int)) as nat
    }
}

/// The proof of work that a header's target stands for:
/// `(2^256 - 1 - target) / (target + 1) + 1`, kept to 256 bits.
pub open spec fn header_work(h: Header) -> nat {
    let m = work_modulus() as int;
    let t = compact_target(h.bits) as int;
    (((m - 1 - t) / (t + 1) + 1) % m) as nat
}

/// The merkle root of every network's genesis block: the id of its one
/// transaction.
pub open spec fn genesis_merkle_root() -> Hash256 {
    Hash256(0xb2127b7afdeda33b, 0x618f76673e2cc77a, 0x32518a88c31bc87f, 0x4a5e1e4baab89f3a)
}

/// The genesis header of a network.
pub open spec fn genesis_header_of(n: NetworkKind) -> Header {
    let (time, bits, nonce) = match n {
        NetworkKind::Bitcoin => (1231006505u32, 0x1d00ffffu32, 2083236893u32),
        NetworkKind::Testnet => (1296688602u32, 0x1d00ffffu32, 414098458u32),
        NetworkKind::Signet => (1598918400u32, 0x1e0377aeu32, 52613770u32),
        NetworkKind::Regtest => (1296688602u32, 0x207fffffu32, 2u32),
    };
    Header {
        version: 1,
        prev_blockhash: Hash256(0, 0, 0, 0),
        merkle_root: genesis_merkle_root(),
        time,
        bits,
        nonce,
    }
}

/// The merkle root of a list of transaction ids, if there is any id.
pub uninterp spec fn merkle_root_of(txids: Seq<Hash256>) -> Option<Hash256>;

/// The id of the transaction that `raw` encodes, if it is a valid encoding.
pub uninterp spec fn decoded_txid(raw: Seq<u8>) -> Option<Txid>;

/// Relies on bitcoin's hash types being 32 bytes: reads a bitcoin block hash
/// into the library's form.
#[verifier::external_body]
pub(crate) fn from_bitcoin_hash(h: &bitcoin::BlockHash) -> Hash256 {
    Hash256::from_le_bytes(bitcoin::hashes::Hash::into_inner(*h))
}

/// Relies on bitcoin's hash types being 32 bytes: writes a hash as a bitcoin
/// block hash.
#[verifier::external_body]
pub(crate) fn to_bitcoin_hash(h: &Hash256) -> bitcoin::BlockHash {
    <bitcoin::BlockHash as bitcoin::hashes::Hash>::from_inner(h.to_le_bytes())
}

/// Relies on bitcoin's `BlockHeader` fields: builds the bitcoin header with
/// the same fields as `h`.
#[verifier::external_body]
pub(crate) fn to_bitcoin_header(h: &Header) -> bitcoin::BlockHeader {
    bitcoin::BlockHeader {
        version: h.version,
        prev_blockhash: to_bitcoin_hash(&h.prev_blockhash),
        merkle_root: <bitcoin::TxMerkleNode as bitcoin::hashes::Hash>::from_inner(h.merkle_root.to_le_bytes()),
        time: h.time,
        bits: h.bits,
        nonce: h.nonce,
    }
}

/// Relies on bitcoin's `Network`: the variant of the same name.
#[verifier::external_body]
pub(crate) fn to_bitcoin_network(n: NetworkKind) -> bitcoin::Network {
    match n {
        NetworkKind::Bitcoin => bitcoin::Network::Bitcoin,
        NetworkKind::Testnet => bitcoin::Network::Testnet,
        NetworkKind::Signet => bitcoin::Network::Signet,
        NetworkKind::Regtest => bitcoin::Network::Regtest,
    }
}

/// Relies on `BlockHeader::block_hash`: the hash of the header, a function of
/// its fields alone.
#[verifier::external_body]
pub fn compute_block_hash(h: &Header) -> (r: Hash256)
    ensures
        r == block_hash_of(*h),
{
    from_bitcoin_hash(&to_bitcoin_header(h).block_hash())
}

/// Relies on `BlockHeader::work` and `BlockHeader::u256_from_compact_target`:
/// the work of the target that the header's `bits` encode.
#[verifier::external_body]
pub fn compute_header_work(h: &Header) -> (r: Work)
    ensures
        r@ == header_work(*h),
{
    Work::from_words(to_bitcoin_header(h).work().0)
}

/// Relies on `blockdata::constants::genesis_block`: the network's genesis
/// header, with the constants given there.
#[verifier::external_body]
pub fn genesis_header(n: NetworkKind) -> (r: Header)
    ensures
        r == genesis_header_of(n),
{
    let h = bitcoin::blockdata::constants::genesis_block(to_bitcoin_network(n)).header;
    Header {
        version: h.version,
        prev_blockhash: from_bitcoin_hash(&h.prev_blockhash),
        merkle_root: Hash256::from_le_bytes(bitcoin::hashes::Hash::into_inner(h.merkle_root)),
        time: h.time,
        bits: h.bits,
        nonce: h.nonce,
    }
}

/// The id of a transaction: the double-SHA256 hash of its encoding without
/// witnesses.
pub uninterp spec fn txid_of(tx: bitcoin::Transaction) -> Hash256;

/// The ids of `txdata`, in order.
pub open spec fn txids_of(txdata: Seq<bitcoin::Transaction>) -> Seq<Hash256> {
    Seq::new(txdata.len(), |j: int| txid_of(txdata[j]))
}

/// The length of the consensus encoding of the block with this header and
/// these transactions.
pub uninterp spec fn block_size_of(header: Header, txdata: Seq<bitcoin::Transaction>) -> nat;

/// Relies on `Transaction::txid`: the id of a transaction, a function of
/// the transaction alone.
#[verifier::external_body]
pub fn compute_txid(tx: &bitcoin::Transaction) -> (r: Hash256)
    ensures
        r == txid_of(*tx),
{
    Hash256::from_le_bytes(bitcoin::hashes::Hash::into_inner(tx.txid()))
}

/// Relies on `util::hash::bitcoin_merkle_root`, which `Block::compute_merkle_root`
/// applies to the ids of the block's transactions: the root of the merkle
/// tree over `txids`, absent exactly when there are none.
#[verifier::external_body]
pub fn compute_merkle_root(txids: &Vec<Hash256>) -> (r: Option<Hash256>)
    ensures
        r == merkle_root_of(txids@),
        r.is_none() <==> txids@.len() == 0,
{
    let hashes = txids.iter().map(|t| <bitcoin::hashes::sha256d::Hash as bitcoin::hashes::Hash>::from_inner(t.to_le_bytes()));
    bitcoin::util::hash::bitcoin_merkle_root(hashes).map(|m| Hash256::from_le_bytes(bitcoin::hashes::Hash::into_inner(m)))
}

/// Relies on `Block::size`: the length of the block's consensus encoding, a
/// function of the header and the transactions alone, and at least the 80
/// header bytes and one byte of transaction count.
#[verifier::external_body]
pub fn compute_block_size(header: &Header, txdata: &Vec<bitcoin::Transaction>) -> (r: usize)
    ensures
        r as nat == block_size_of(*header, txdata@),
        r >= 81,
{
    bitcoin::Block { header: to_bitcoin_header(header), txdata: txdata.clone() }.size()
}

/// Relies on `consensus::deserialize::<Transaction>` and `Transaction::txid`:
/// the id of the transaction that `raw` encodes, or `None` where `raw` is not
/// exactly one transaction's encoding.
#[verifier::external_body]
pub fn decode_txid(raw: &[u8]) -> (r: Option<Txid>)
    ensures
        r == decoded_txid(raw@),
{
    bitcoin::consensus::deserialize::<bitcoin::Transaction>(raw).ok().map(
        |t| Hash256::from_le_bytes(bitcoin::hashes::Hash::into_inner(t.txid())),
    )
}

} // verus!
