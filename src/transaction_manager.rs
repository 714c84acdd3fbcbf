//! The relay cache of outbound transactions: bounded, ordered by arrival,
//! advertised to each peer once, served on request and dropped on timeout.
use crate::bitcoin_ops::{decode_txid, decoded_txid};
use crate::types::{Hash256, Txid};
use vstd::prelude::*;

verus! {

/// How long a transaction is held, in seconds.
pub const TX_CACHE_TIMEOUT_PERIOD_SECS: u64 = 600;

/// Most transaction ids in one `inv` or `getdata` message.
pub const MAXIMUM_TRANSACTION_PER_INV: usize = 50000;

/// Most transactions held at once.
pub const TX_CACHE_SIZE: usize = 250;

/// The address of a peer: an IPv6 address (IPv4 ones mapped into IPv6) and
/// a port.
#[derive(Clone, Copy, Debug, PartialEq, Eq, Structural, Hash)]
pub struct PeerAddr {
    pub ip: u128,
    pub port: u16,
}

/// An item of an `inv` or `getdata` message.
#[derive(Clone, Copy, Debug, PartialEq, Eq, Structural)]
pub enum Inventory {
    /// A transaction, by id.
    Transaction(Txid),
    /// Any other kind of item.
    Other,
}

/// The Bitcoin messages that the transaction manager reads or sends.
pub enum NetworkMessage {
    /// An announcement of items.
    Inv(Vec<Inventory>),
    /// A request for items.
    GetData(Vec<Inventory>),
    /// A transaction, in its consensus encoding.
    Tx(Vec<u8>),
    /// Any other message.
    Other,
}

/// A message to send, to one peer or, without an address, to all.
pub struct Command {
    pub address: Option<PeerAddr>,
    pub message: NetworkMessage,
}

/// Why sending a command failed.
#[derive(Clone, Copy, Debug, PartialEq, Eq, Structural)]
pub enum ChannelError {
    NotAvailable,
}

/// The connection to the Bitcoin network that the adapter provides.
pub trait Channel {
    /// The addresses of the peers connected now.
    fn available_connections(&self) -> Vec<PeerAddr>;

    /// Queues a command for sending.
    fn send(&mut self, command: Command) -> Result<(), ChannelError>;
}

/// Why a message from a peer was refused.
#[derive(Clone, Copy, Debug, PartialEq, Eq, Structural)]
pub enum ProcessBitcoinNetworkMessageError {
    /// A `getdata` with more than `MAXIMUM_TRANSACTION_PER_INV` items.
    InvalidMessage,
}

/// What the manager tracks of one transaction.
pub struct TransactionInfo {
    /// The transaction's consensus encoding.
    pub transaction: Vec<u8>,
    /// The peers it was advertised to, each once.
    pub advertised: Vec<PeerAddr>,
    /// When it is dropped, in seconds since the Unix epoch.
    pub timeout_at: u64,
}

impl TransactionInfo {
    /// A transaction seen at time `now`: advertised to nobody yet, and due to
    /// time out `TX_CACHE_TIMEOUT_PERIOD_SECS` later.
    fn new(transaction: &[u8], now: u64) -> (r: Self)
        ensures
            r.transaction@ == transaction@,
            r.advertised@.len() == 0,
            r.timeout_at == timeout_after(now),
    {
        TransactionInfo {
            transaction: slice_to_vec(transaction),
            advertised: Vec::new(),
            timeout_at: now.saturating_add(TX_CACHE_TIMEOUT_PERIOD_SECS),
        }
    }
}

/// The key of a transaction in the cache: its id's four words.
pub type TxKey = (u64, u64, u64, u64);

/// The key of the transaction with id `t`.
pub open spec fn key_of(t: Txid) -> TxKey {
    (t.0, t.1, t.2, t.3)
}

#[verifier::external_type_specification]
#[verifier::external_body]
#[verifier::reject_recursive_types(K)]
#[verifier::reject_recursive_types(V)]
#[verifier::reject_recursive_types(S)]
pub struct ExLinkedHashMap<K, V, S>(hashlink::LinkedHashMap<K, V, S>);

/// The transaction cache: a map that keeps its entries in insertion order.
pub type TxMap = hashlink::LinkedHashMap<TxKey, TransactionInfo, std::collections::hash_map::RandomState>;

/// The entries of the transaction cache, front (oldest) to back.
pub uninterp spec fn tx_entries(m: TxMap) -> Seq<(TxKey, TransactionInfo)>;

/// Whether some entry of `e` has key `k`.
pub open spec fn has_key(e: Seq<(TxKey, TransactionInfo)>, k: TxKey) -> bool {
    exists|i: int| 0 <= i < e.len() && e[i].0 == k
}

/// Relies on `LinkedHashMap::with_hasher`: an empty map.
#[verifier::external_body]
fn tx_map_new() -> (r: TxMap)
    ensures
        tx_entries(r) == Seq::<(TxKey, TransactionInfo)>::empty(),
{
    hashlink::LinkedHashMap::with_hasher(std::collections::hash_map::RandomState::new())
}

/// Relies on `LinkedHashMap::len`: the number of entries.
#[verifier::external_body]
fn tx_map_len(m: &TxMap) -> (r: usize)
    ensures
        r == tx_entries(*m).len(),
{
    m.len()
}

/// Relies on `LinkedHashMap::contains_key`: whether an entry has key `k`.
#[verifier::external_body]
fn tx_map_contains(m: &TxMap, k: &TxKey) -> (r: bool)
    ensures
        r == has_key(tx_entries(*m), *k),
{
    m.contains_key(k)
}

/// Relies on `LinkedHashMap::get`: the value of the entry with key `k`.
#[verifier::external_body]
fn tx_map_get<'a>(m: &'a TxMap, k: &TxKey) -> (r: Option<&'a TransactionInfo>)
    ensures
        match r {
            Some(v) => exists|i: int|
                0 <= i < tx_entries(*m).len() && tx_entries(*m)[i].0 == *k && tx_entries(*m)[i].1 == *v,
            None => !has_key(tx_entries(*m), *k),
        },
{
    m.get(k)
}

/// Relies on `LinkedHashMap::pop_front`: removes and returns the front
/// entry.
#[verifier::external_body]
fn tx_map_pop_front(m: &mut TxMap) -> (r: Option<(TxKey, TransactionInfo)>)
    ensures
        tx_entries(*old(m)).len() == 0 ==> r.is_none() && tx_entries(*final(m)) == tx_entries(*old(m)),
        tx_entries(*old(m)).len() > 0 ==> r == Some(tx_entries(*old(m))[0]) && tx_entries(*final(m)) == tx_entries(*old(m)).drop_first(),
{
    m.pop_front()
}

/// Relies on `LinkedHashMap::insert`: a key that is not in the map goes in
/// at the back.
#[verifier::external_body]
fn tx_map_insert(m: &mut TxMap, k: TxKey, v: TransactionInfo)
    requires
        !has_key(tx_entries(*old(m)), k),
    ensures
        tx_entries(*final(m)) == tx_entries(*old(m)).push((k, v)),
{
    m.insert(k, v);
}

/// Relies on `LinkedHashMap::drain`: takes every entry out, front to back.
#[verifier::external_body]
fn tx_map_drain(m: &mut TxMap) -> (r: Vec<(TxKey, TransactionInfo)>)
    ensures
        r@ == tx_entries(*old(m)),
        tx_entries(*final(m)).len() == 0,
{
    m.drain().collect()
}

/// Relies on `LinkedHashMap::clear`: removes every entry.
#[verifier::external_body]
fn tx_map_clear(m: &mut TxMap)
    ensures
        tx_entries(*final(m)).len() == 0,
{
    m.clear()
}

/// Relies on `SystemTime::now`: the wall-clock time, in whole seconds since
/// the Unix epoch (0 for a clock set before it).
#[verifier::external_body]
fn now_secs() -> u64 {
    std::time::SystemTime::now().duration_since(std::time::UNIX_EPOCH).map(|d| d.as_secs()).unwrap_or(0)
}

/// `now` plus the timeout, or the last second there is.
pub open spec fn timeout_after(now: u64) -> u64 {
    if now as int + TX_CACHE_TIMEOUT_PERIOD_SECS as int > u64::MAX {
        u64::MAX
    } else {
        (now + TX_CACHE_TIMEOUT_PERIOD_SECS) as u64
    }
}

/// A copy of the bytes of `s`.
fn slice_to_vec(s: &[u8]) -> (r: Vec<u8>)
    ensures
        r@ == s@,
{
    let mut r: Vec<u8> = Vec::new();
    let mut i: usize = 0;
    while i < s.len()
        invariant
            i <= s@.len(),
            r@ == s@.subrange(0, i as int),
        decreases s@.len() - i,
    {
        r.push(s[i]);
        i = i + 1;
        proof {
            assert(r@ =~= s@.subrange(0, i as int));
        }
    }
    proof {
        assert(s@.subrange(0, i as int) == s@);
    }
    r
}

/// Entry `i` of `e` is not among the kept entries before it, when keys are
/// distinct.
proof fn lemma_filter_has_key(
    e: Seq<(TxKey, TransactionInfo)>,
    i: int,
    keep: spec_fn((TxKey, TransactionInfo)) -> bool,
)
    requires
        keys_unique(e),
        0 <= i < e.len(),
    ensures
        !has_key(e.subrange(0, i).filter(keep), e[i].0),
{
    let f = e.subrange(0, i).filter(keep);
    if has_key(f, e[i].0) {
        let x = choose|x: int| 0 <= x < f.len() && f[x].0 == e[i].0;
        assert(f.contains(f[x]));
        e.subrange(0, i).lemma_filter_contains_rev(keep, f[x]);
        let y = choose|y: int| 0 <= y < i && e.subrange(0, i)[y] == f[x];
        assert(e[y].0 == e[i].0);
    }
}

/// Keeping some entries keeps the invariant.
proof fn lemma_filter_entries_wf(e: Seq<(TxKey, TransactionInfo)>, keep: spec_fn((TxKey, TransactionInfo)) -> bool)
    requires
        entries_wf(e),
    ensures
        entries_wf(e.filter(keep)),
    decreases e.len(),
{
    reveal(Seq::filter);
    if e.len() > 0 {
        let d = e.drop_last();
        assert(forall|x: int| 0 <= x < d.len() ==> #[trigger] d[x] == e[x]);
        assert forall|x: int, y: int|
            0 <= x < d.len() && 0 <= y < d.len() && #[trigger] d[x].0 == #[trigger] d[y].0 implies x == y by {
            assert(e[x].0 == e[y].0);
        }
        lemma_filter_entries_wf(d, keep);
        if keep(e.last()) {
            lemma_filter_has_key(e, e.len() - 1, keep);
            assert(e.subrange(0, e.len() - 1) == d);
            let fd = d.filter(keep);
            let f = fd.push(e.last());
            assert forall|x: int, y: int|
                0 <= x < f.len() && 0 <= y < f.len() && #[trigger] f[x].0 == #[trigger] f[y].0 implies x == y by {
                if x < fd.len() && y < fd.len() {
                    assert(fd[x].0 == fd[y].0);
                }
            }
            assert forall|x: int| 0 <= x < f.len() implies peers_unique(#[trigger] f[x].1.advertised@) by {
                if x < fd.len() {
                    assert(peers_unique(fd[x].1.advertised@));
                } else {
                    assert(peers_unique(e[e.len() - 1].1.advertised@));
                }
            }
            d.lemma_filter_len_push(keep, e.last());
        }
    }
}

/// The id whose key is `k`.
pub open spec fn txid_of_key(k: TxKey) -> Txid {
    Hash256(k.0, k.1, k.2, k.3)
}

/// The inventory of the entries of `e` not yet advertised to `p`, in order.
pub open spec fn pending(e: Seq<(TxKey, TransactionInfo)>, p: PeerAddr) -> Seq<Inventory>
    decreases e.len(),
{
    if e.len() == 0 {
        Seq::empty()
    } else {
        let before = pending(e.drop_last(), p);
        if e.last().1.advertised@.contains(p) {
            before
        } else {
            before.push(Inventory::Transaction(txid_of_key(e.last().0)))
        }
    }
}

/// The `inv` messages that advertising `e` to `peers` sends: for each peer,
/// at its first place in `peers`, one message with what it has not been
/// advertised, where there is any.
pub open spec fn inv_plan(e: Seq<(TxKey, TransactionInfo)>, peers: Seq<PeerAddr>) -> Seq<(PeerAddr, Seq<Inventory>)>
    decreases peers.len(),
{
    if peers.len() == 0 {
        Seq::empty()
    } else {
        let p = peers.last();
        let before = inv_plan(e, peers.drop_last());
        if peers.drop_last().contains(p) || pending(e, p).len() == 0 {
            before
        } else {
            before.push((p, pending(e, p)))
        }
    }
}

/// `cmds` sends, in order, each planned `inv` message to its peer.
pub open spec fn sends_plan(cmds: Seq<Command>, plan: Seq<(PeerAddr, Seq<Inventory>)>) -> bool {
    &&& cmds.len() == plan.len()
    &&& forall|k: int|
        0 <= k < cmds.len() ==> (#[trigger] cmds[k]).address == Some(plan[k].0) && cmds[k].message is Inv
            && cmds[k].message->Inv_0@ == plan[k].1
}

/// Two entry lists agree on who was advertised `p`, entry by entry.
proof fn lemma_pending_same(a: Seq<(TxKey, TransactionInfo)>, b: Seq<(TxKey, TransactionInfo)>, p: PeerAddr)
    requires
        a.len() == b.len(),
        forall|j: int| 0 <= j < a.len() ==> (#[trigger] a[j]).0 == b[j].0 && (a[j].1.advertised@.contains(p) <==> b[j].1.advertised@.contains(p)),
    ensures
        pending(a, p) == pending(b, p),
    decreases a.len(),
{
    if a.len() > 0 {
        let da = a.drop_last();
        let db = b.drop_last();
        assert forall|j: int| 0 <= j < da.len() implies (#[trigger] da[j]).0 == db[j].0 && (da[j].1.advertised@.contains(p) <==> db[j].1.advertised@.contains(p)) by {
            assert(da[j] == a[j] && db[j] == b[j]);
        }
        lemma_pending_same(da, db, p);
    }
}

/// Nothing is pending for a peer that every entry was advertised to.
proof fn lemma_pending_none(a: Seq<(TxKey, TransactionInfo)>, p: PeerAddr)
    requires
        forall|j: int| 0 <= j < a.len() ==> (#[trigger] a[j]).1.advertised@.contains(p),
    ensures
        pending(a, p).len() == 0,
    decreases a.len(),
{
    if a.len() > 0 {
        let d = a.drop_last();
        assert forall|j: int| 0 <= j < d.len() implies (#[trigger] d[j]).1.advertised@.contains(p) by {
            assert(d[j] == a[j]);
        }
        lemma_pending_none(d, p);
    }
}

/// Whether `p` is among `peers`.
fn peer_in(peers: &Vec<PeerAddr>, p: &PeerAddr) -> (r: bool)
    ensures
        r == peers@.contains(*p),
{
    let mut i: usize = 0;
    while i < peers.len()
        invariant
            i <= peers@.len(),
            forall|k: int| 0 <= k < i ==> peers@[k] != *p,
        decreases peers@.len() - i,
    {
        if peers[i] == *p {
            return true;
        }
        i = i + 1;
    }
    false
}

/// The encoding cached under key `k`, for a key that is present.
pub open spec fn cached_tx(e: Seq<(TxKey, TransactionInfo)>, k: TxKey) -> Seq<u8> {
    e[choose|i: int| 0 <= i < e.len() && e[i].0 == k].1.transaction@
}

/// The encodings that a request for `items` is answered with: one per
/// transaction item that is cached, in the order asked.
pub open spec fn served(e: Seq<(TxKey, TransactionInfo)>, items: Seq<Inventory>) -> Seq<Seq<u8>>
    decreases items.len(),
{
    if items.len() == 0 {
        Seq::empty()
    } else {
        let before = served(e, items.drop_last());
        match items.last() {
            Inventory::Transaction(t) => if has_key(e, key_of(t)) {
                before.push(cached_tx(e, key_of(t)))
            } else {
                before
            },
            Inventory::Other => before,
        }
    }
}

/// `cmds` sends each of `txs`, in order, to `addr`.
pub open spec fn sends_txs(cmds: Seq<Command>, addr: PeerAddr, txs: Seq<Seq<u8>>) -> bool {
    &&& cmds.len() == txs.len()
    &&& forall|k: int|
        0 <= k < cmds.len() ==> (#[trigger] cmds[k]).address == Some(addr) && cmds[k].message is Tx
            && cmds[k].message->Tx_0@ == txs[k]
}

/// Sends each command through `channel`, in order; failures are ignored.
fn send_all<C: Channel>(channel: &mut C, commands: Vec<Command>) {
    let mut commands = commands;
    while commands.len() > 0
        decreases commands@.len(),
    {
        let command = commands.remove(0);
        let _ = channel.send(command);
    }
}

/// `e1` is `e0` with every peer of `peers` added to each entry's advertised
/// peers; nothing else changes.
pub open spec fn advertised_to(e0: Seq<(TxKey, TransactionInfo)>, e1: Seq<(TxKey, TransactionInfo)>, peers: Seq<PeerAddr>) -> bool {
    &&& e1.len() == e0.len()
    &&& forall|i: int|
        0 <= i < e0.len() ==> {
            let a = #[trigger] e0[i];
            let b = e1[i];
            &&& b.0 == a.0
            &&& b.1.transaction == a.1.transaction
            &&& b.1.timeout_at == a.1.timeout_at
            &&& forall|q: PeerAddr|
                b.1.advertised@.contains(q) <==> (a.1.advertised@.contains(q) || peers.contains(q))
        }
}

/// `e1` is `e0` without the entries whose timeout is before `now`.
pub open spec fn reaped(e0: Seq<(TxKey, TransactionInfo)>, e1: Seq<(TxKey, TransactionInfo)>, now: u64) -> bool {
    e1 == e0.filter(|e: (TxKey, TransactionInfo)| e.1.timeout_at >= now)
}

/// Keys pairwise distinct.
pub open spec fn keys_unique(e: Seq<(TxKey, TransactionInfo)>) -> bool {
    forall|i: int, j: int| 0 <= i < e.len() && 0 <= j < e.len() && #[trigger] e[i].0 == #[trigger] e[j].0 ==> i == j
}

/// No peer twice among the advertised.
pub open spec fn peers_unique(p: Seq<PeerAddr>) -> bool {
    forall|i: int, j: int| 0 <= i < p.len() && 0 <= j < p.len() && #[trigger] p[i] == #[trigger] p[j] ==> i == j
}

/// The cache's invariant: at most `TX_CACHE_SIZE` entries, keys distinct,
/// and no peer recorded twice for one transaction.
pub open spec fn entries_wf(e: Seq<(TxKey, TransactionInfo)>) -> bool {
    &&& e.len() <= TX_CACHE_SIZE
    &&& keys_unique(e)
    &&& forall|i: int| 0 <= i < e.len() ==> peers_unique(#[trigger] e[i].1.advertised@)
}

/// The transactions submitted for relay.
pub struct TransactionManager {
    pub(crate) transactions: TxMap,
}

impl TransactionManager {
    /// The cached transactions, oldest first.
    pub open(crate) spec fn entries(&self) -> Seq<(TxKey, TransactionInfo)> {
        tx_entries(self.transactions)
    }

    pub open(crate) spec fn wf(&self) -> bool {
        entries_wf(self.entries())
    }

    /// A manager with no transactions.
    pub fn new() -> (r: Self)
        ensures
            r.wf(),
            r.entries().len() == 0,
    {
        TransactionManager { transactions: tx_map_new() }
    }

    /// Number of cached transactions.
    pub fn transaction_count(&self) -> (r: usize)
        ensures
            r == self.entries().len(),
    {
        tx_map_len(&self.transactions)
    }

    /// What is tracked of the transaction with id `txid`, if it is cached.
    pub fn get_transaction_info(&self, txid: &Txid) -> (r: Option<&TransactionInfo>)
        ensures
            match r {
                Some(v) => exists|i: int|
                    0 <= i < self.entries().len() && self.entries()[i].0 == key_of(*txid)
                        && self.entries()[i].1 == *v,
                None => !has_key(self.entries(), key_of(*txid)),
            },
    {
        let k: TxKey = (txid.0, txid.1, txid.2, txid.3);
        assert(k == key_of(*txid));
        let r = tx_map_get(&self.transactions, &k);
        proof {
            if let Some(v) = r {
                let m = tx_entries(self.transactions);
                let i = choose|i: int| 0 <= i < m.len() && m[i].0 == k && m[i].1 == *v;
                assert(self.entries()[i] == m[i]);
            }
        }
        r
    }

    /// The effect of submitting the encoding `raw` at time `now`: nothing
    /// where it does not decode; otherwise, with the cache full, the oldest
    /// entry goes first; then the transaction joins at the back, not yet
    /// advertised and due to time out `TX_CACHE_TIMEOUT_PERIOD_SECS` after
    /// `now`, unless it is cached already, in which case its entry stays as
    /// it was.
    pub open spec fn sent(
        e0: Seq<(TxKey, TransactionInfo)>,
        e1: Seq<(TxKey, TransactionInfo)>,
        raw: Seq<u8>,
        now: u64,
    ) -> bool {
        match decoded_txid(raw) {
            None => e1 == e0,
            Some(t) => {
                let kept = if e0.len() == TX_CACHE_SIZE {
                    e0.drop_first()
                } else {
                    e0
                };
                if has_key(kept, key_of(t)) {
                    e1 == kept
                } else {
                    &&& e1.len() == kept.len() + 1
                    &&& e1.drop_last() == kept
                    &&& e1.last().0 == key_of(t)
                    &&& e1.last().1.transaction@ == raw
                    &&& e1.last().1.advertised@.len() == 0
                    &&& e1.last().1.timeout_at == timeout_after(now)
                }
            },
        }
    }

    /// Submits a transaction, in its consensus encoding, for relay, at time
    /// `now` (seconds since the Unix epoch).
    pub fn send_transaction_at(&mut self, raw_tx: &[u8], now: u64)
        requires
            old(self).wf(),
        ensures
            final(self).wf(),
            Self::sent(old(self).entries(), final(self).entries(), raw_tx@, now),
    {
        let ghost e0 = self.entries();
        if let Some(txid) = decode_txid(raw_tx) {
            if tx_map_len(&self.transactions) == TX_CACHE_SIZE {
                tx_map_pop_front(&mut self.transactions);
            }
            let ghost e1 = self.entries();
            proof {
                if e0.len() == TX_CACHE_SIZE {
                    assert forall|i: int, j: int|
                        0 <= i < e1.len() && 0 <= j < e1.len() && #[trigger] e1[i].0 == #[trigger] e1[j].0
                            implies i == j by {
                        assert(e0[i + 1].0 == e0[j + 1].0);
                    }
                    assert forall|i: int| 0 <= i < e1.len() implies peers_unique(#[trigger] e1[i].1.advertised@) by {
                        assert(e1[i] == e0[i + 1]);
                    }
                }
            }
            let k: TxKey = (txid.0, txid.1, txid.2, txid.3);
            if !tx_map_contains(&self.transactions, &k) {
                let info = TransactionInfo::new(raw_tx, now);
                tx_map_insert(&mut self.transactions, k, info);
                proof {
                    let e2 = self.entries();
                    assert(e2.drop_last() =~= e1);
                    assert forall|i: int, j: int|
                        0 <= i < e2.len() && 0 <= j < e2.len() && #[trigger] e2[i].0 == #[trigger] e2[j].0
                            implies i == j by {
                        if i < e1.len() && j < e1.len() {
                            assert(e1[i].0 == e1[j].0);
                        } else if i < e1.len() {
                            assert(e1[i].0 == k);
                        } else if j < e1.len() {
                            assert(e1[j].0 == k);
                        }
                    }
                    assert forall|i: int| 0 <= i < e2.len() implies peers_unique(#[trigger] e2[i].1.advertised@) by {
                        if i < e1.len() {
                            assert(e2[i] == e1[i]);
                        }
                    }
                }
            }
        }
    }

    /// Submits a transaction, in its consensus encoding, for relay.
    pub fn send_transaction(&mut self, raw_tx: &[u8])
        requires
            old(self).wf(),
        ensures
            final(self).wf(),
            exists|now: u64| Self::sent(old(self).entries(), final(self).entries(), raw_tx@, now),
    {
        let now = now_secs();
        self.send_transaction_at(raw_tx, now);
    }

    /// Drops the transactions whose timeout is before `now`; the others keep
    /// their order.
    pub fn reap_at(&mut self, now: u64)
        requires
            old(self).wf(),
        ensures
            final(self).wf(),
            final(self).entries() == old(self).entries().filter(
                |e: (TxKey, TransactionInfo)| e.1.timeout_at >= now,
            ),
    {
        let ghost keep = |e: (TxKey, TransactionInfo)| e.1.timeout_at >= now;
        let ghost e0 = self.entries();
        let mut entries = tx_map_drain(&mut self.transactions);
        let mut i: usize = 0;
        while entries.len() > 0
            invariant
                i <= e0.len(),
                entries@ == e0.subrange(i as int, e0.len() as int),
                self.entries() == e0.subrange(0, i as int).filter(keep),
                entries_wf(e0),
                forall|e: (TxKey, TransactionInfo)| #[trigger] keep(e) == (e.1.timeout_at >= now),
            decreases entries@.len(),
        {
            let entry = entries.remove(0);
            proof {
                assert(entry == e0[i as int]);
                assert(e0.subrange(0, i + 1) == e0.subrange(0, i as int).push(e0[i as int]));
                e0.subrange(0, i as int).lemma_filter_push(e0[i as int], keep);
                lemma_filter_has_key(e0, i as int, keep);
            }
            if entry.1.timeout_at >= now {
                tx_map_insert(&mut self.transactions, entry.0, entry.1);
            }
            i = i + 1;
            proof {
                assert(entries@ =~= e0.subrange(i as int, e0.len() as int));
            }
        }
        proof {
            assert(i == e0.len());
            assert(e0.subrange(0, i as int) == e0);
            lemma_filter_entries_wf(e0, keep);
        }
    }

    /// Puts `entries` back into the empty cache, in order.
    fn refill(&mut self, entries: Vec<(TxKey, TransactionInfo)>)
        requires
            tx_entries(old(self).transactions).len() == 0,
            entries_wf(entries@),
        ensures
            final(self).entries() == entries@,
            final(self).wf(),
    {
        let ghost all = entries@;
        let mut entries = entries;
        let mut i: usize = 0;
        while entries.len() > 0
            invariant
                i <= all.len(),
                entries@ == all.subrange(i as int, all.len() as int),
                self.entries() == all.subrange(0, i as int),
                entries_wf(all),
            decreases entries@.len(),
        {
            let entry = entries.remove(0);
            proof {
                assert(entry == all[i as int]);
                if has_key(all.subrange(0, i as int), entry.0) {
                    let x = choose|x: int| 0 <= x < i && all.subrange(0, i as int)[x].0 == entry.0;
                    assert(all[x].0 == all[i as int].0);
                }
            }
            tx_map_insert(&mut self.transactions, entry.0, entry.1);
            i = i + 1;
            proof {
                assert(self.entries() =~= all.subrange(0, i as int));
                assert(entries@ =~= all.subrange(i as int, all.len() as int));
            }
        }
        proof {
            assert(all.subrange(0, i as int) == all);
        }
    }

    /// Advertises, to each of `peers`, the cached transactions not yet
    /// advertised to it, in cache order, and records them as advertised.
    /// Returns the `inv` commands to send. A batch that reaches
    /// `MAXIMUM_TRANSACTION_PER_INV` items goes to all of `peers` at once.
    pub fn advertise_txids(&mut self, peers: &Vec<PeerAddr>) -> (cmds: Vec<Command>)
        requires
            old(self).wf(),
        ensures
            final(self).wf(),
            advertised_to(old(self).entries(), final(self).entries(), peers@),
            sends_plan(cmds@, inv_plan(old(self).entries(), peers@)),
    {
        let ghost e0 = self.entries();
        let mut entries = tx_map_drain(&mut self.transactions);
        let n = entries.len();
        let mut commands: Vec<Command> = Vec::new();
        let mut pi: usize = 0;
        while pi < peers.len()
            invariant
                pi <= peers@.len(),
                entries@.len() == n,
                n == e0.len(),
                entries_wf(e0),
                tx_entries(self.transactions).len() == 0,
                entries_wf(entries@),
                forall|i: int|
                    0 <= i < n ==> {
                        let a = #[trigger] e0[i];
                        let b = entries@[i];
                        &&& b.0 == a.0
                        &&& b.1.transaction == a.1.transaction
                        &&& b.1.timeout_at == a.1.timeout_at
                        &&& forall|q: PeerAddr|
                            b.1.advertised@.contains(q) <==> (a.1.advertised@.contains(q)
                                || peers@.subrange(0, pi as int).contains(q))
                    },
                sends_plan(commands@, inv_plan(e0, peers@.subrange(0, pi as int))),
            decreases peers@.len() - pi,
        {
            let address = peers[pi];
            let ghost eb = entries@;
            let ghost seen = peers@.subrange(0, pi as int).contains(address);
            proof {
                assert forall|j: int| 0 <= j < n implies forall|q: PeerAddr|
                    (#[trigger] eb[j]).1.advertised@.contains(q) <==> (e0[j].1.advertised@.contains(q)
                        || peers@.subrange(0, pi as int).contains(q)) by {
                    let a = e0[j];
                }
            }
            let mut inventory: Vec<Inventory> = Vec::new();
            let ghost c_start = commands@;
            let mut i: usize = 0;
            while i < entries.len()
                invariant
                    commands@ == c_start,
                    i <= n,
                    entries@.len() == n,
                    eb.len() == n,
                    n <= TX_CACHE_SIZE,
                    entries_wf(eb),
                    forall|j: int| 0 <= j < n ==> (#[trigger] entries@[j]).0 == eb[j].0
                        && entries@[j].1.transaction == eb[j].1.transaction
                        && entries@[j].1.timeout_at == eb[j].1.timeout_at,
                    forall|j: int| i <= j < n ==> #[trigger] entries@[j] == eb[j],
                    forall|j: int| 0 <= j < i ==> forall|q: PeerAddr|
                        (#[trigger] entries@[j]).1.advertised@.contains(q) <==> (eb[j].1.advertised@.contains(q)
                            || q == address),
                    forall|j: int| 0 <= j < n ==> peers_unique(#[trigger] entries@[j].1.advertised@),
                    inventory@ == pending(eb.subrange(0, i as int), address),
                    inventory@.len() <= i,
                decreases n - i,
            {
                let ghost prev = entries@;
                let (k, mut info) = entries.remove(i);
                let ghost before = info.advertised@;
                if !peer_in(&info.advertised, &address) {
                    inventory.push(Inventory::Transaction(Hash256(k.0, k.1, k.2, k.3)));
                    info.advertised.push(address);
                    proof {
                        assert(info.advertised@[info.advertised@.len() - 1] == address);
                        assert forall|x: int, y: int|
                            0 <= x < info.advertised@.len() && 0 <= y < info.advertised@.len()
                                && #[trigger] info.advertised@[x] == #[trigger] info.advertised@[y] implies x == y by {
                            if x < before.len() && y < before.len() {
                                assert(before[x] == before[y]);
                            } else if x < before.len() {
                                assert(before.contains(before[x]));
                            } else if y < before.len() {
                                assert(before.contains(before[y]));
                            }
                        }
                    }
                }
                proof {
                    assert(eb.subrange(0, i + 1).drop_last() == eb.subrange(0, i as int));
                    assert(info.advertised@.contains(address));
                    assert forall|q: PeerAddr| info.advertised@.contains(q) <==> (before.contains(q) || q == address) by {
                        if info.advertised@.contains(q) && !before.contains(q) {
                            let x = choose|x: int| 0 <= x < info.advertised@.len() && info.advertised@[x] == q;
                            if x < before.len() {
                                assert(before[x] == q);
                            }
                        }
                        if before.contains(q) {
                            let x = choose|x: int| 0 <= x < before.len() && before[x] == q;
                            assert(info.advertised@[x] == q);
                        }
                    }
                }
                let ghost after = info.advertised@;
                entries.insert(i, (k, info));
                proof {
                    assert forall|j: int| 0 <= j < i + 1 implies forall|q: PeerAddr|
                        (#[trigger] entries@[j]).1.advertised@.contains(q) <==> (eb[j].1.advertised@.contains(q)
                            || q == address) by {
                        if j < i {
                            assert(entries@[j] == prev[j]);
                        } else {
                            assert(entries@[j].1.advertised@ == after);
                            assert(prev[j] == eb[j]);
                        }
                    }
                }
                i = i + 1;
                if inventory.len() == MAXIMUM_TRANSACTION_PER_INV {
                    let mut a: usize = 0;
                    while a < peers.len()
                        invariant
                            a <= peers@.len(),
                        decreases peers@.len() - a,
                    {
                        commands.push(Command { address: Some(peers[a]), message: NetworkMessage::Inv(inventory.clone()) });
                        a = a + 1;
                    }
                    inventory = Vec::new();
                }
            }
            proof {
                assert(eb.subrange(0, n as int) == eb);
                let prefix = peers@.subrange(0, pi as int);
                assert(peers@.subrange(0, pi + 1) == prefix.push(address));
                assert(peers@.subrange(0, pi + 1).drop_last() == prefix);
                if seen {
                    assert forall|j: int| 0 <= j < eb.len() implies (#[trigger] eb[j]).1.advertised@.contains(address) by {
                        assert(e0[j].1.advertised@.contains(address) || prefix.contains(address));
                    }
                    lemma_pending_none(eb, address);
                } else {
                    assert forall|j: int| 0 <= j < eb.len() implies (#[trigger] eb[j]).0 == e0[j].0 && (eb[j].1.advertised@.contains(address) <==> e0[j].1.advertised@.contains(address)) by {
                        assert(e0[j].1.advertised@.contains(address) || prefix.contains(address) <==> e0[j].1.advertised@.contains(address));
                    }
                    lemma_pending_same(eb, e0, address);
                }
            }
            let ghost c0 = commands@;
            let ghost inv = inventory@;
            if inventory.len() > 0 {
                commands.push(Command { address: Some(address), message: NetworkMessage::Inv(inventory) });
            }
            proof {
                let prefix = peers@.subrange(0, pi as int);
                let next = peers@.subrange(0, pi + 1);
                assert(next.drop_last() == prefix);
                assert(next.last() == address);
                let plan0 = inv_plan(e0, prefix);
                let plan1 = inv_plan(e0, next);
                if seen || pending(e0, address).len() == 0 {
                    assert(plan1 == plan0);
                    assert(inv.len() == 0);
                    assert(commands@ == c0);
                } else {
                    assert(plan1 == plan0.push((address, pending(e0, address))));
                    assert(inv == pending(e0, address));
                    assert forall|k: int| 0 <= k < commands@.len() implies (#[trigger] commands@[k]).address == Some(plan1[k].0) && commands@[k].message is Inv
                        && commands@[k].message->Inv_0@ == plan1[k].1 by {
                        if k < c0.len() {
                            assert(commands@[k] == c0[k]);
                        }
                    }
                }
                assert forall|i: int| 0 <= i < n implies {
                        let a = #[trigger] e0[i];
                        let b = entries@[i];
                        &&& b.0 == a.0
                        &&& b.1.transaction == a.1.transaction
                        &&& b.1.timeout_at == a.1.timeout_at
                        &&& forall|q: PeerAddr|
                            b.1.advertised@.contains(q) <==> (a.1.advertised@.contains(q)
                                || next.contains(q))
                    } by {
                    assert forall|q: PeerAddr| next.contains(q) <==> (prefix.contains(q) || q == address) by {
                        if next.contains(q) {
                            let x = choose|x: int| 0 <= x < next.len() && next[x] == q;
                            if x < prefix.len() {
                                assert(prefix[x] == q);
                            }
                        }
                        if prefix.contains(q) {
                            let x = choose|x: int| 0 <= x < prefix.len() && prefix[x] == q;
                            assert(next[x] == q);
                        }
                        if q == address {
                            assert(next[pi as int] == q);
                        }
                    }
                }
            }
            pi = pi + 1;
        }
        proof {
            assert(peers@.subrange(0, pi as int) == peers@);
        }
        self.refill(entries);
        commands
    }

    /// Answers a message from peer `addr`: a `getdata` with more than
    /// `MAXIMUM_TRANSACTION_PER_INV` items is refused; otherwise each
    /// requested transaction that is cached is sent to `addr`, in the order
    /// asked. Other messages need no answer.
    pub fn getdata_commands(&self, addr: PeerAddr, message: &NetworkMessage) -> (r: Result<
        Vec<Command>,
        ProcessBitcoinNetworkMessageError,
    >)
        requires
            self.wf(),
        ensures
            match message {
                NetworkMessage::GetData(items) => if items@.len() > MAXIMUM_TRANSACTION_PER_INV {
                    r == Err::<Vec<Command>, _>(ProcessBitcoinNetworkMessageError::InvalidMessage)
                } else {
                    r is Ok && sends_txs(r->Ok_0@, addr, served(self.entries(), items@))
                },
                _ => r is Ok && r->Ok_0@.len() == 0,
            },
    {
        let mut commands: Vec<Command> = Vec::new();
        if let NetworkMessage::GetData(items) = message {
            if items.len() > MAXIMUM_TRANSACTION_PER_INV {
                return Err(ProcessBitcoinNetworkMessageError::InvalidMessage);
            }
            let ghost e = self.entries();
            let mut i: usize = 0;
            while i < items.len()
                invariant
                    i <= items@.len(),
                    e == self.entries(),
                    entries_wf(e),
                    sends_txs(commands@, addr, served(e, items@.subrange(0, i as int))),
                decreases items@.len() - i,
            {
                let ghost c0 = commands@;
                proof {
                    assert(items@.subrange(0, i + 1).drop_last() == items@.subrange(0, i as int));
                    assert(items@.subrange(0, i + 1).last() == items@[i as int]);
                }
                if let Inventory::Transaction(txid) = items[i] {
                    if let Some(info) = self.get_transaction_info(&txid) {
                        proof {
                            let j = choose|j: int| 0 <= j < e.len() && e[j].0 == key_of(txid) && e[j].1 == *info;
                            let c = choose|c: int| 0 <= c < e.len() && e[c].0 == key_of(txid);
                            assert(e[c].0 == e[j].0);
                        }
                        commands.push(Command { address: Some(addr), message: NetworkMessage::Tx(slice_to_vec(info.transaction.as_slice())) });
                        proof {
                            assert forall|k: int| 0 <= k < commands@.len() implies (#[trigger] commands@[k]).address == Some(addr) && commands@[k].message is Tx
                                && commands@[k].message->Tx_0@ == served(e, items@.subrange(0, i + 1))[k] by {
                                if k < c0.len() {
                                    assert(commands@[k] == c0[k]);
                                }
                            }
                        }
                    }
                }
                i = i + 1;
            }
            proof {
                assert(items@.subrange(0, i as int) == items@);
            }
        }
        Ok(commands)
    }

    /// Answers a message from peer `addr` through `channel`, as
    /// `getdata_commands` says; sending failures are ignored.
    pub fn process_bitcoin_network_message<C: Channel>(
        &mut self,
        channel: &mut C,
        addr: PeerAddr,
        message: &NetworkMessage,
    ) -> (r: Result<(), ProcessBitcoinNetworkMessageError>)
        requires
            old(self).wf(),
        ensures
            final(self).entries() == old(self).entries(),
            final(self).wf(),
            r is Err <==> (message is GetData && message->GetData_0@.len() > MAXIMUM_TRANSACTION_PER_INV),
    {
        match self.getdata_commands(addr, message) {
            Ok(commands) => {
                send_all(channel, commands);
                Ok(())
            },
            Err(e) => Err(e),
        }
    }

    /// One heartbeat at time `now`: advertises to `peers` what each has not
    /// been advertised, then drops what timed out before `now`. Returns the
    /// `inv` commands to send.
    pub fn tick_at(&mut self, peers: &Vec<PeerAddr>, now: u64) -> (cmds: Vec<Command>)
        requires
            old(self).wf(),
        ensures
            final(self).wf(),
            sends_plan(cmds@, inv_plan(old(self).entries(), peers@)),
            Self::ticked(old(self).entries(), final(self).entries(), peers@, now),
    {
        let ghost e0 = self.entries();
        let cmds = self.advertise_txids(peers);
        let ghost e1 = self.entries();
        self.reap_at(now);
        assert(reaped(e1, self.entries(), now));
        cmds
    }

    /// The effect of one heartbeat at time `now` with `peers` connected:
    /// every entry is recorded as advertised to them all, then the entries
    /// whose timeout is before `now` go.
    pub open spec fn ticked(
        e0: Seq<(TxKey, TransactionInfo)>,
        e2: Seq<(TxKey, TransactionInfo)>,
        peers: Seq<PeerAddr>,
        now: u64,
    ) -> bool {
        exists|e1: Seq<(TxKey, TransactionInfo)>| advertised_to(e0, e1, peers) && #[trigger] reaped(e1, e2, now)
    }

    /// One heartbeat: advertises to the connected peers what each has not
    /// been advertised, then drops what timed out.
    pub fn tick<C: Channel>(&mut self, channel: &mut C)
        requires
            old(self).wf(),
        ensures
            final(self).wf(),
            exists|peers: Seq<PeerAddr>, now: u64| Self::ticked(old(self).entries(), final(self).entries(), peers, now),
    {
        let peers = channel.available_connections();
        let now = now_secs();
        let commands = self.tick_at(&peers, now);
        send_all(channel, commands);
    }

    /// Drops the transactions whose timeout has passed.
    pub fn reap(&mut self)
        requires
            old(self).wf(),
        ensures
            final(self).wf(),
            exists|now: u64| reaped(old(self).entries(), final(self).entries(), now),
    {
        let now = now_secs();
        self.reap_at(now);
        assert(reaped(old(self).entries(), self.entries(), now));
    }

    /// Drops every cached transaction.
    pub fn make_idle(&mut self)
        ensures
            final(self).wf(),
            final(self).entries().len() == 0,
    {
        tx_map_clear(&mut self.transactions);
    }
}

/// The cache never holds more than `TX_CACHE_SIZE` transactions.
pub proof fn cache_is_bounded(m: &TransactionManager)
    requires
        m.wf(),
    ensures
        m.entries().len() <= TX_CACHE_SIZE,
{
}

/// After a heartbeat with peer `q` connected, every transaction still cached
/// is recorded as advertised to `q`.
pub proof fn tick_advertises_to_every_peer(
    e0: Seq<(TxKey, TransactionInfo)>,
    e2: Seq<(TxKey, TransactionInfo)>,
    peers: Seq<PeerAddr>,
    now: u64,
    i: int,
    q: PeerAddr,
)
    requires
        TransactionManager::ticked(e0, e2, peers, now),
        0 <= i < e2.len(),
        peers.contains(q),
    ensures
        e2[i].1.advertised@.contains(q),
{
    broadcast use vstd::seq_lib::group_filter_ensures;

    let e1 = choose|e1: Seq<(TxKey, TransactionInfo)>| advertised_to(e0, e1, peers) && #[trigger] reaped(e1, e2, now);
    let keep = |e: (TxKey, TransactionInfo)| e.1.timeout_at >= now;
    assert(e2 == e1.filter(keep));
    assert(e1.filter(keep).contains(e2[i]));
    e1.lemma_filter_contains_rev(keep, e2[i]);
    let j = choose|j: int| 0 <= j < e1.len() && e1[j] == e2[i];
    let a = e0[j];
}

/// Submitting a transaction that is cached again leaves its timeout as it
/// was, unless the cache is full and it is the oldest entry, which is then
/// evicted first.
pub proof fn resend_keeps_timeout(
    e0: Seq<(TxKey, TransactionInfo)>,
    e1: Seq<(TxKey, TransactionInfo)>,
    raw: Seq<u8>,
    now: u64,
    i: int,
)
    requires
        entries_wf(e0),
        TransactionManager::sent(e0, e1, raw, now),
        0 <= i < e0.len(),
        decoded_txid(raw) matches Some(t) && e0[i].0 == key_of(t),
        e0.len() == TX_CACHE_SIZE ==> i != 0,
    ensures
        exists|j: int| 0 <= j < e1.len() && e1[j].0 == e0[i].0 && e1[j].1.timeout_at == e0[i].1.timeout_at,
{
    let t = decoded_txid(raw)->Some_0;
    if e0.len() == TX_CACHE_SIZE {
        let kept = e0.drop_first();
        assert(kept[i - 1] == e0[i]);
        assert(has_key(kept, key_of(t)));
        assert(e1[i - 1] == e0[i]);
    } else {
        assert(has_key(e0, key_of(t)));
        assert(e1[i] == e0[i]);
    }
}

} // verus!
