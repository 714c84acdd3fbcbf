//! The blockchain state: the header tree, its tips ordered by work, and a
//! cache of full blocks.
use crate::bitcoin_ops::{
    block_hash_of, compute_block_hash, compute_block_size, compute_merkle_root, compute_txid,
    merkle_root_of, block_size_of, txids_of, txid_of,
    from_bitcoin_hash, genesis_header_of, to_bitcoin_hash, header_work, to_bitcoin_header, to_bitcoin_network,
};
use crate::config::Config;
use crate::header_cache::{
    appended, HeaderCache, HeaderCacheError, HeaderNode, holds_hash, parent_linked,
    tree_wf,
};
use crate::types::{half_modulus, lemma_work_bounds, BlockHeight, Hash256, Header, NetworkKind, Work, work_modulus};
use ic_btc_validation::ValidateHeaderError as RawValidationError;
use vstd::prelude::*;

verus! {

/// A header without successors, with its height and the work of the chain
/// that ends in it.
#[derive(Clone, Copy, Debug, PartialEq, Eq, Structural)]
pub struct Tip {
    /// The header.
    pub header: Header,
    /// The height of `header`.
    pub height: BlockHeight,
    /// The work of `header` and all its ancestors.
    pub work: Work,
}

/// A header that was added to the state, with its height and the work of the
/// chain that ends in it.
pub type CachedHeader = Tip;

/// The projection of a header node onto its header, height and work.
pub open spec fn tip_of(n: HeaderNode) -> Tip {
    Tip { header: n.header, height: n.height, work: n.work }
}

/// Why the header validator rejected a header.
#[derive(Clone, Copy, Debug, PartialEq, Eq, Structural)]
pub enum ValidateHeaderError {
    HeaderIsOld,
    DoesNotMatchCheckpoint,
    InvalidPoWForHeaderTarget,
    InvalidPoWForComputedTarget,
    TargetDifficultyAboveMax,
    HeightTooLow,
    PrevHeaderNotFound,
}

/// Why a header was not added.
#[derive(Clone, Copy, Debug, PartialEq, Eq, Structural)]
pub enum AddHeaderError {
    /// The validator rejected the header with this hash.
    InvalidHeader(Hash256, ValidateHeaderError),
    /// The predecessor with this hash is not in the header tree.
    PrevHeaderNotCached(Hash256),
    /// The header with this hash extends a parent whose timestamp the
    /// validator's 32-bit time arithmetic cannot handle.
    TimestampOutOfRange(Hash256),
}

/// Why a block was not added.
#[derive(Clone, Copy, Debug, PartialEq, Eq, Structural)]
pub enum AddBlockError {
    /// The merkle root of the block with this hash does not match its
    /// transactions.
    InvalidMerkleRoot(Hash256),
    /// The block's header was not added.
    Header(AddHeaderError),
}

/// A full block: its header and its transactions.
pub struct Block {
    pub header: Header,
    pub txdata: Vec<bitcoin::Transaction>,
}

/// A block in the cache, under its hash and with its encoded size.
pub struct CachedBlock {
    pub hash: Hash256,
    pub size: usize,
    pub block: Block,
}

/// The headers and some of the blocks of a Bitcoin blockchain.
pub struct BlockchainState {
    pub(crate) header_cache: HeaderCache,
    pub(crate) block_cache: Vec<CachedBlock>,
    pub(crate) tips: Vec<Tip>,
    pub(crate) tip_nodes: Ghost<Seq<int>>,
    pub(crate) network: NetworkKind,
    pub(crate) genesis_hash: Hash256,
}

impl BlockchainState {
    /// The nodes of the header tree; node 0 is genesis.
    pub open(crate) spec fn nodes(&self) -> Seq<HeaderNode> {
        self.header_cache.view()
    }

    /// The tips, in the order the state keeps them.
    pub open(crate) spec fn tip_seq(&self) -> Seq<Tip> {
        self.tips@
    }

    /// For each tip, the index of its node.
    pub open(crate) spec fn tip_indices(&self) -> Seq<int> {
        self.tip_nodes@
    }

    /// The network whose genesis header the state started from.
    pub open(crate) spec fn network_spec(&self) -> NetworkKind {
        self.network
    }

    /// The cached blocks, in insertion order.
    pub open(crate) spec fn blocks(&self) -> Seq<CachedBlock> {
        self.block_cache@
    }

    /// Every part of the state but the order of the tips is consistent: the
    /// header tree is well formed, each tip stands for a distinct leaf, every
    /// leaf has a tip, and each cached block sits under its own hash, once.
    pub open(crate) spec fn wf_unordered(&self) -> bool {
        let n = self.nodes();
        let t = self.tip_nodes@;
        &&& self.header_cache.wf()
        &&& n[0].header == genesis_header_of(self.network)
        &&& n[0].hash == self.genesis_hash
        &&& tips_match(n, self.tips@, t)
        &&& blocks_wf(self.block_cache@)
    }

    /// The state's invariant: consistent, with the tips ordered by
    /// non-increasing work.
    pub open(crate) spec fn wf(&self) -> bool {
        &&& self.wf_unordered()
        &&& sorted_by_work(self.tips@)
    }
}

/// `tips[k]` stands for the leaf `t[k]`, no leaf twice, and every leaf of
/// `n` has a tip.
pub open spec fn tips_match(n: Seq<HeaderNode>, tips: Seq<Tip>, t: Seq<int>) -> bool {
    &&& tips.len() == t.len()
    &&& t.len() >= 1
    &&& forall|k: int|
        0 <= k < t.len() ==> 0 <= #[trigger] t[k] < n.len() && tips[k] == tip_of(n[t[k]])
            && n[t[k]].children@.len() == 0
    &&& forall|k1: int, k2: int|
        0 <= k1 < t.len() && 0 <= k2 < t.len() && #[trigger] t[k1] == #[trigger] t[k2] ==> k1 == k2
    &&& forall|i: int|
        0 <= i < n.len() && (#[trigger] n[i]).children@.len() == 0 ==> exists|k: int|
            0 <= k < t.len() && t[k] == i
}

/// Swapping two tips together with their node indices keeps them matched.
proof fn lemma_swap_tips(n: Seq<HeaderNode>, tips: Seq<Tip>, t: Seq<int>, a: int, b: int)
    requires
        tips_match(n, tips, t),
        0 <= a < t.len(),
        0 <= b < t.len(),
    ensures
        tips_match(
            n,
            tips.update(a, tips[b]).update(b, tips[a]),
            t.update(a, t[b]).update(b, t[a]),
        ),
{
    let tips2 = tips.update(a, tips[b]).update(b, tips[a]);
    let t2 = t.update(a, t[b]).update(b, t[a]);
    assert forall|k: int|
        0 <= k < t2.len() implies 0 <= #[trigger] t2[k] < n.len() && tips2[k] == tip_of(n[t2[k]])
            && n[t2[k]].children@.len() == 0 by {
        if k != b && k != a {
            assert(t2[k] == t[k]);
        }
    }
    assert forall|k1: int, k2: int|
        0 <= k1 < t2.len() && 0 <= k2 < t2.len() && #[trigger] t2[k1] == #[trigger] t2[k2]
            implies k1 == k2 by {
        let o1 = if k1 == b { a } else if k1 == a { b } else { k1 };
        let o2 = if k2 == b { a } else if k2 == a { b } else { k2 };
        assert(t2[k1] == t[o1] && t2[k2] == t[o2]);
    }
    assert forall|i: int|
        0 <= i < n.len() && (#[trigger] n[i]).children@.len() == 0 implies exists|k: int|
            0 <= k < t2.len() && t2[k] == i by {
        let k = choose|k: int| 0 <= k < t.len() && t[k] == i;
        let k2 = if k == a { b } else if k == b { a } else { k };
        assert(t2[k2] == i);
    }
}

/// The outcome of adding a single header.
pub enum AddHeaderResult {
    /// The header was added; it is now this node.
    HeaderAdded(CachedHeader),
    /// The header was present already, as this node.
    HeaderAlreadyExists(CachedHeader),
}

impl BlockchainState {
    /// A state that holds the genesis header of the configured network, as
    /// its only tip, and no blocks.
    pub fn new(config: &Config) -> (r: Self)
        ensures
            r.wf(),
            r.nodes().len() == 1,
            r.nodes()[0].header == genesis_header_of(config.network),
            r.tip_seq() == seq![tip_of(r.nodes()[0])],
            r.blocks().len() == 0,
            r.network_spec() == config.network,
    {
        let header_cache = HeaderCache::new(config.network);
        let genesis = &header_cache.nodes[0];
        let tip = Tip { header: genesis.header, height: genesis.height, work: genesis.work };
        let genesis_hash = genesis.hash;
        let mut tips: Vec<Tip> = Vec::new();
        tips.push(tip);
        let r = BlockchainState {
            header_cache,
            block_cache: Vec::new(),
            tips,
            tip_nodes: Ghost(Seq::empty().push(0int)),
            network: config.network,
            genesis_hash,
        };
        proof {
            let n = r.nodes();
            assert forall|i: int|
                0 <= i < n.len() && (#[trigger] n[i]).children@.len() == 0 implies exists|k: int|
                    0 <= k < r.tip_nodes@.len() && r.tip_nodes@[k] == i by {
                assert(r.tip_nodes@[0] == i);
            }
            assert(r.tips@ =~= seq![tip_of(n[0])]);
        }
        r
    }

    /// The node with hash `h`, if any.
    pub open(crate) spec fn node_with_hash(&self, h: Hash256) -> Option<HeaderNode> {
        if holds_hash(self.nodes(), h) {
            Some(self.nodes()[choose|i: int| 0 <= i < self.nodes().len() && self.nodes()[i].hash == h])
        } else {
            None
        }
    }

    /// What the validator can look up: each header of the tree under its
    /// hash, with its height.
    pub open(crate) spec fn header_map(&self) -> Map<Hash256, (Header, u32)> {
        Map::new(
            |h: Hash256| holds_hash(self.nodes(), h),
            |h: Hash256| (self.node_with_hash(h)->Some_0.header, self.node_with_hash(h)->Some_0.height),
        )
    }

    /// The chain height the validator is told: that of the first tip.
    pub open(crate) spec fn chain_height(&self) -> u32 {
        if self.tips@.len() > 0 {
            self.tips@[0].height
        } else {
            0
        }
    }

    /// The validator's verdict on `header` against this state.
    pub open(crate) spec fn verdict(&self, header: Header) -> Option<ValidateHeaderError> {
        header_verdict(self.network, self.header_map(), self.chain_height(), self.genesis_hash, header)
    }

    /// The header `k` lookups of `prev_blockhash` back from `h`, staying
    /// put where a lookup finds nothing, as the validator walks back.
    pub open(crate) spec fn header_walk(&self, h: Header, k: nat) -> Header
        decreases k,
    {
        if k == 0 {
            h
        } else {
            match self.node_with_hash(h.prev_blockhash) {
                Some(n) => self.header_walk(n.header, (k - 1) as nat),
                None => self.header_walk(h, (k - 1) as nat),
            }
        }
    }

    /// Whether validating `header` would overflow the validator's `u32` time
    /// arithmetic: on a test network, away from retarget heights, a parent
    /// time within twenty minutes of `u32::MAX`; on a retargeting network, at
    /// a retarget height, a parent time before that of the header 2015
    /// lookups back from it.
    pub open(crate) spec fn timestamp_overflow(&self, header: Header) -> bool {
        match self.node_with_hash(header.prev_blockhash) {
            None => false,
            Some(p) => {
                ||| ((self.network == NetworkKind::Testnet || self.network == NetworkKind::Regtest)
                    && (p.height + 1) % 2016 != 0 && p.header.time > u32::MAX - 1200)
                ||| (self.network != NetworkKind::Regtest && (p.height + 1) % 2016 == 0
                    && p.header.time < self.header_walk(p.header, 2015).time)
            },
        }
    }

    /// Walks `k` lookups of `prev_blockhash` back from `h`.
    fn walk_headers(&self, h: Header, k: u32) -> (r: Header)
        requires
            self.wf_unordered(),
        ensures
            r == self.header_walk(h, k as nat),
    {
        let mut cur = h;
        let mut j: u32 = 0;
        while j < k
            invariant
                self.wf_unordered(),
                j <= k,
                self.header_walk(h, k as nat) == self.header_walk(cur, (k - j) as nat),
            decreases k - j,
        {
            match self.header_cache.get(&cur.prev_blockhash) {
                Some(n) => {
                    proof {
                        let i = choose|i: int| 0 <= i < self.nodes().len() && self.nodes()[i] == *n && n.hash == cur.prev_blockhash;
                        lemma_node_with_hash(*self, i);
                    }
                    cur = n.header;
                },
                None => {},
            }
            j = j + 1;
        }
        cur
    }

    /// Whether validating `header` would overflow the validator's time
    /// arithmetic.
    fn check_timestamp_overflow(&self, header: &Header) -> (r: bool)
        requires
            self.wf_unordered(),
        ensures
            r == self.timestamp_overflow(*header),
    {
        match self.header_cache.get(&header.prev_blockhash) {
            None => {
                proof {
                    if holds_hash(self.nodes(), header.prev_blockhash) {
                        assert(self.header_cache.wf());
                    }
                }
                false
            },
            Some(p) => {
                proof {
                    let i = choose|i: int| 0 <= i < self.nodes().len() && self.nodes()[i] == *p && p.hash == header.prev_blockhash;
                    lemma_node_with_hash(*self, i);
                    assert(p.height <= i);
                }
                let test_network = match self.network {
                    NetworkKind::Testnet => true,
                    NetworkKind::Regtest => true,
                    _ => false,
                };
                if test_network && (p.height + 1) % 2016 != 0 && p.header.time > u32::MAX - 1200 {
                    return true;
                }
                let retargets = match self.network {
                    NetworkKind::Regtest => false,
                    _ => true,
                };
                if retargets && (p.height + 1) % 2016 == 0 {
                    let first = self.walk_headers(p.header, 2015);
                    p.header.time < first.time
                } else {
                    false
                }
            },
        }
    }

    /// The effect of adding one header to `s0`, giving `s1` and the outcome
    /// `r`: a header that is present changes nothing; otherwise one whose
    /// parent's time would overflow the validator's arithmetic is refused,
    /// one that the validator rejects is refused with the validator's
    /// verdict, and both change nothing; one that the validator accepts
    /// becomes a new leaf under its parent, taking the parent's place among
    /// the tips if the parent was a tip and joining them at the end
    /// otherwise.
    pub open(crate) spec fn header_step(
        s0: BlockchainState,
        s1: BlockchainState,
        header: Header,
        r: Result<AddHeaderResult, AddHeaderError>,
    ) -> bool {
        let h = block_hash_of(header);
        let unchanged = s1 == s0;
        match r {
            Ok(AddHeaderResult::HeaderAlreadyExists(c)) => {
                &&& holds_hash(s0.nodes(), h)
                &&& s0.node_with_hash(h) matches Some(node) && c == tip_of(node)
                &&& unchanged
            },
            Ok(AddHeaderResult::HeaderAdded(c)) => {
                let m = s0.nodes().len() as int;
                let p = s1.nodes()[m].parent as int;
                &&& !holds_hash(s0.nodes(), h)
                &&& !s0.timestamp_overflow(header)
                &&& s0.verdict(header).is_none()
                &&& appended(s0.nodes(), s1.nodes(), header)
                &&& c == tip_of(s1.nodes()[m])
                &&& s1.blocks() == s0.blocks()
                &&& s1.network == s0.network
                &&& s1.genesis_hash == s0.genesis_hash
                &&& if exists|k: int| 0 <= k < s0.tip_nodes@.len() && s0.tip_nodes@[k] == p {
                    let k = choose|k: int| 0 <= k < s0.tip_nodes@.len() && s0.tip_nodes@[k] == p;
                    s1.tips@ == s0.tips@.update(k, c) && s1.tip_nodes@ == s0.tip_nodes@.update(k, m)
                } else {
                    s1.tips@ == s0.tips@.push(c) && s1.tip_nodes@ == s0.tip_nodes@.push(m)
                }
            },
            Err(AddHeaderError::TimestampOutOfRange(eh)) => {
                &&& eh == h
                &&& !holds_hash(s0.nodes(), h)
                &&& s0.timestamp_overflow(header)
                &&& unchanged
            },
            Err(AddHeaderError::InvalidHeader(eh, v)) => {
                &&& eh == h
                &&& !holds_hash(s0.nodes(), h)
                &&& !s0.timestamp_overflow(header)
                &&& s0.verdict(header) == Some(v)
                &&& (v == ValidateHeaderError::PrevHeaderNotFound <==> !holds_hash(
                    s0.nodes(),
                    header.prev_blockhash,
                ))
                &&& unchanged
            },
            Err(AddHeaderError::PrevHeaderNotCached(_)) => false,
        }
    }

    /// The position of the tip whose header hashes to `prev`, if any.
    fn tip_position(&self, prev: &Hash256) -> (r: Option<usize>)
        ensures
            match r {
                Some(k) => k < self.tips@.len() && block_hash_of(self.tips@[k as int].header)
                    == *prev,
                None => forall|k: int|
                    0 <= k < self.tips@.len() ==> block_hash_of(#[trigger] self.tips@[k].header)
                        != *prev,
            },
    {
        let mut k: usize = 0;
        while k < self.tips.len()
            invariant
                k <= self.tips@.len(),
                forall|j: int| 0 <= j < k ==> block_hash_of(#[trigger] self.tips@[j].header) != *prev,
            decreases self.tips@.len() - k,
        {
            if compute_block_hash(&self.tips[k].header) == *prev {
                return Some(k);
            }
            k = k + 1;
        }
        None
    }

    /// Adds one header, after the validator has accepted it.
    fn add_header(&mut self, header: Header) -> (r: Result<AddHeaderResult, AddHeaderError>)
        requires
            old(self).wf_unordered(),
            old(self).nodes().len() + 1 < u32::MAX,
        ensures
            final(self).wf_unordered(),
            final(self).blocks() == old(self).blocks(),
            final(self).network_spec() == old(self).network_spec(),
            Self::header_step(*old(self), *final(self), header, r),
    {
        let block_hash = compute_block_hash(&header);
        match self.header_cache.find(&block_hash) {
            Some(i) => {
                let node = &self.header_cache.nodes[i];
                proof {
                    let n = self.nodes();
                    let j = choose|j: int| 0 <= j < n.len() && n[j].hash == block_hash;
                    assert(n[j].hash == n[i as int].hash);
                }
                return Ok(
                    AddHeaderResult::HeaderAlreadyExists(
                        Tip { header: node.header, height: node.height, work: node.work },
                    ),
                );
            },
            None => {},
        }
        if self.check_timestamp_overflow(&header) {
            return Err(AddHeaderError::TimestampOutOfRange(block_hash));
        }
        if let Err(err) = validate(self.network, self, &header) {
            return Err(AddHeaderError::InvalidHeader(block_hash, err));
        }
        let prev_hash = header.prev_blockhash;
        let ghost s0 = *self;
        let ghost n0 = self.nodes();
        match self.header_cache.insert(header) {
            Ok(()) => {},
            Err(HeaderCacheError::NotFound(prev_hash)) => {
                return Err(AddHeaderError::PrevHeaderNotCached(prev_hash));
            },
            Err(HeaderCacheError::AlreadyExists) => {
                return Err(AddHeaderError::PrevHeaderNotCached(prev_hash));
            },
        }
        let m = self.header_cache.nodes.len() - 1;
        let node = &self.header_cache.nodes[m];
        let tip = Tip { header: node.header, height: node.height, work: node.work };
        let ghost n1 = self.nodes();
        let ghost p = n1[m as int].parent as int;
        let ghost t0 = self.tip_nodes@;
        let ghost tips0 = self.tips@;
        proof {
            assert(tips_match(n0, tips0, t0));
            assert forall|k: int| 0 <= k < t0.len() implies (t0[k] == p <==> block_hash_of(
                #[trigger] tips0[k].header,
            ) == prev_hash) by {
                assert(tips0[k] == tip_of(n0[t0[k]]));
                assert(n0[t0[k]].hash == block_hash_of(n0[t0[k]].header));
            }
            assert(n1[p].children@.len() > 0);
            assert(forall|i: int| 0 <= i < m && i != p ==> #[trigger] n1[i] == n0[i]);
        }
        match self.tip_position(&prev_hash) {
            Some(k) => {
                self.tips.set(k, tip);
                self.tip_nodes = Ghost(self.tip_nodes@.update(k as int, m as int));
                proof {
                    let t1 = self.tip_nodes@;
                    assert(t0[k as int] == p);
                    assert forall|j: int|
                        0 <= j < t1.len() implies 0 <= #[trigger] t1[j] < n1.len() && self.tips@[j]
                        == tip_of(n1[t1[j]]) && n1[t1[j]].children@.len() == 0 by {
                        if j != k {
                            assert(t0[j] != p);
                        }
                    }
                    assert forall|i: int|
                        0 <= i < n1.len() && (#[trigger] n1[i]).children@.len() == 0 implies exists|
                        j: int,
                    | 0 <= j < t1.len() && t1[j] == i by {
                        if i == m {
                            assert(t1[k as int] == i);
                        } else {
                            assert(i != p);
                            assert(n1[i] == n0[i]);
                            let j = choose|j: int| 0 <= j < t0.len() && t0[j] == i;
                            assert(t1[j] == i);
                        }
                    }
                    assert forall|k1: int, k2: int|
                        0 <= k1 < t1.len() && 0 <= k2 < t1.len() && #[trigger] t1[k1]
                            == #[trigger] t1[k2] implies k1 == k2 by {
                        if k1 != k && k2 != k {
                            assert(t0[k1] == t0[k2]);
                        }
                    }
                    assert(tips_match(n1, self.tips@, t1));
                    let kk = choose|kk: int| 0 <= kk < t0.len() && t0[kk] == p;
                    assert(kk == k);
                }
            },
            None => {
                self.tips.push(tip);
                self.tip_nodes = Ghost(self.tip_nodes@.push(m as int));
                proof {
                    let t1 = self.tip_nodes@;
                    assert forall|j: int| 0 <= j < t0.len() implies t0[j] != p by {
                        assert(block_hash_of(tips0[j].header) != prev_hash);
                    }
                    assert forall|j: int|
                        0 <= j < t1.len() implies 0 <= #[trigger] t1[j] < n1.len() && self.tips@[j]
                        == tip_of(n1[t1[j]]) && n1[t1[j]].children@.len() == 0 by {
                        if j < t0.len() {
                            assert(t1[j] == t0[j]);
                        }
                    }
                    assert forall|i: int|
                        0 <= i < n1.len() && (#[trigger] n1[i]).children@.len() == 0 implies exists|
                        j: int,
                    | 0 <= j < t1.len() && t1[j] == i by {
                        if i == m {
                            assert(t1[t0.len() as int] == i);
                        } else {
                            assert(i != p);
                            assert(n1[i] == n0[i]);
                            let j = choose|j: int| 0 <= j < t0.len() && t0[j] == i;
                            assert(t1[j] == i);
                        }
                    }
                    assert forall|k1: int, k2: int|
                        0 <= k1 < t1.len() && 0 <= k2 < t1.len() && #[trigger] t1[k1]
                            == #[trigger] t1[k2] implies k1 == k2 by {
                        if k1 < t0.len() && k2 < t0.len() {
                            assert(t0[k1] == t0[k2]);
                        }
                    }
                    assert(tips_match(n1, self.tips@, t1));
                }
            },
        }
        Ok(AddHeaderResult::HeaderAdded(tip))
    }

    /// A summary of adding `headers` in order to `s0`, giving `s1`: the
    /// headers before the first failing one, and no others, are all in the
    /// tree; the nodes that were there keep their headers; each new node holds
    /// one of those headers, and `added` lists the new nodes in order; `err`
    /// concerns the first header that failed, which is not in the tree; and
    /// where every header was present already, nothing changes.
    pub open(crate) spec fn headers_outcome(
        s0: BlockchainState,
        s1: BlockchainState,
        headers: Seq<Header>,
        added: Seq<CachedHeader>,
        err: Option<AddHeaderError>,
    ) -> bool {
        let n0 = s0.nodes();
        let n1 = s1.nodes();
        let k = s1.processed(headers, err);
        &&& 0 <= k <= headers.len()
        &&& n1.len() == n0.len() + added.len()
        &&& forall|a: int| 0 <= a < n0.len() ==> tip_of(#[trigger] n1[a]) == tip_of(n0[a]) && n1[a].hash == n0[a].hash
        &&& new_nodes_from(n0, n1, headers, k)
        &&& forall|a: int| 0 <= a < added.len() ==> #[trigger] added[a] == tip_of(n1[n0.len() + a])
        &&& forall|j: int| 0 <= j < k ==> holds_hash(n1, block_hash_of(#[trigger] headers[j]))
        &&& match err {
            None => true,
            Some(AddHeaderError::InvalidHeader(eh, v)) => {
                &&& k < headers.len()
                &&& eh == block_hash_of(headers[k])
                &&& !holds_hash(n1, eh)
                &&& (v == ValidateHeaderError::PrevHeaderNotFound <==> !holds_hash(
                    n1,
                    headers[k].prev_blockhash,
                ))
            },
            Some(AddHeaderError::TimestampOutOfRange(eh)) => {
                &&& k < headers.len()
                &&& eh == block_hash_of(headers[k])
                &&& !holds_hash(n1, eh)
            },
            Some(AddHeaderError::PrevHeaderNotCached(_)) => false,
        }
        &&& (forall|j: int| 0 <= j < headers.len() ==> holds_hash(n0, block_hash_of(#[trigger] headers[j])))
            ==> (s1 == s0 && added.len() == 0 && err.is_none())
    }

    /// `states` and `results` record adding `headers` one by one from `s0`:
    /// each step is `header_step`, all succeed but possibly the last, the
    /// run stops at the first failure or at the end of `headers`, `added`
    /// lists what the steps added, in order, and `err` is the failure.
    pub open(crate) spec fn header_run(
        s0: BlockchainState,
        headers: Seq<Header>,
        states: Seq<BlockchainState>,
        results: Seq<Result<AddHeaderResult, AddHeaderError>>,
        added: Seq<CachedHeader>,
        err: Option<AddHeaderError>,
    ) -> bool {
        &&& states.len() == results.len() + 1
        &&& states[0] == s0
        &&& results.len() <= headers.len()
        &&& forall|i: int|
            0 <= i < results.len() ==> Self::header_step(states[i], states[i + 1], headers[i], #[trigger] results[i])
        &&& forall|i: int| 0 <= i < results.len() - 1 ==> (#[trigger] results[i]) is Ok
        &&& added == added_of(results)
        &&& match err {
            None => results.len() == headers.len() && (results.len() == 0 || results.last() is Ok),
            Some(e) => results.len() >= 1 && results.last() == Err::<AddHeaderResult, AddHeaderError>(e),
        }
    }

    /// `s1` is what a run of single-header steps from `s0` (see
    /// `header_run`) leaves, with its tips then ordered by work, tips of
    /// equal work keeping their order.
    pub open(crate) spec fn run_then_sorted(
        s0: BlockchainState,
        s1: BlockchainState,
        headers: Seq<Header>,
        added: Seq<CachedHeader>,
        err: Option<AddHeaderError>,
        states: Seq<BlockchainState>,
        results: Seq<Result<AddHeaderResult, AddHeaderError>>,
        perm: Seq<int>,
    ) -> bool {
        &&& Self::header_run(s0, headers, states, results, added, err)
        &&& s1.nodes() == states.last().nodes()
        &&& s1.blocks() == states.last().blocks()
        &&& stable_reorder(states.last().tip_seq(), s1.tip_seq(), perm)
    }

    /// How many of `headers` were taken in: all of them, or those before the
    /// first that failed.
    pub open(crate) spec fn processed(&self, headers: Seq<Header>, err: Option<AddHeaderError>) -> int {
        match err {
            None => headers.len() as int,
            Some(_) => self.failed_at(headers),
        }
    }

    /// The index of the first of `headers` that is not in the tree.
    pub open(crate) spec fn failed_at(&self, headers: Seq<Header>) -> int {
        if exists|j: int| 0 <= j < headers.len() && !holds_hash(self.nodes(), block_hash_of(headers[j])) {
            choose|j: int|
                0 <= j < headers.len() && !holds_hash(self.nodes(), block_hash_of(headers[j])) && forall|
                    i: int,
                | 0 <= i < j ==> holds_hash(self.nodes(), block_hash_of(#[trigger] headers[i]))
        } else {
            headers.len() as int
        }
    }

    /// Adds `headers` in the given order, skipping those that are present and
    /// stopping at the first that fails; then orders the tips by work.
    /// Returns the headers that were added and the error, if any. Parents are
    /// expected before their children.
    #[verifier::rlimit(80)]
    pub fn add_headers(&mut self, headers: &[Header]) -> (r: (Vec<CachedHeader>, Option<AddHeaderError>))
        requires
            old(self).wf(),
            old(self).nodes().len() + headers@.len() < u32::MAX,
        ensures
            final(self).wf(),
            final(self).blocks() == old(self).blocks(),
            final(self).network_spec() == old(self).network_spec(),
            Self::headers_outcome(*old(self), *final(self), headers@, r.0@, r.1),
            exists|states: Seq<BlockchainState>, results: Seq<Result<AddHeaderResult, AddHeaderError>>, perm: Seq<int>|
                Self::run_then_sorted(*old(self), *final(self), headers@, r.0@, r.1, states, results, perm),
    {
        let ghost n0 = self.nodes();
        let ghost all_held = forall|j: int|
            0 <= j < headers@.len() ==> holds_hash(n0, block_hash_of(#[trigger] headers@[j]));
        let ghost mut states: Seq<BlockchainState> = Seq::empty().push(*self);
        let ghost mut results: Seq<Result<AddHeaderResult, AddHeaderError>> = Seq::empty();
        let mut added: Vec<CachedHeader> = Vec::new();
        let mut err: Option<AddHeaderError> = None;
        let mut i: usize = 0;
        while i < headers.len() && err.is_none()
            invariant
                self.wf_unordered(),
                self.blocks() == old(self).blocks(),
                self.network_spec() == old(self).network_spec(),
                n0 == old(self).nodes(),
                i <= headers@.len(),
                added@.len() <= i,
                self.nodes().len() == n0.len() + added@.len(),
                n0.len() + headers@.len() < u32::MAX,
                forall|a: int| 0 <= a < n0.len() ==> tip_of(#[trigger] self.nodes()[a]) == tip_of(n0[a]) && self.nodes()[a].hash == n0[a].hash,
                forall|a: int|
                    #![trigger self.nodes()[a]]
                    n0.len() <= a < self.nodes().len() ==> exists|j: int|
                        0 <= j < i && self.nodes()[a].header == #[trigger] headers@[j],
                forall|a: int|
                    0 <= a < added@.len() ==> #[trigger] added@[a] == tip_of(self.nodes()[n0.len() + a]),
                forall|j: int| 0 <= j < i ==> holds_hash(self.nodes(), block_hash_of(#[trigger] headers@[j])),
                match err {
                    None => true,
                    Some(AddHeaderError::InvalidHeader(eh, v)) => {
                        &&& i < headers@.len()
                        &&& eh == block_hash_of(headers@[i as int])
                        &&& !holds_hash(self.nodes(), eh)
                        &&& (v == ValidateHeaderError::PrevHeaderNotFound <==> !holds_hash(
                            self.nodes(),
                            headers@[i as int].prev_blockhash,
                        ))
                    },
                    Some(AddHeaderError::TimestampOutOfRange(eh)) => {
                        &&& i < headers@.len()
                        &&& eh == block_hash_of(headers@[i as int])
                        &&& !holds_hash(self.nodes(), eh)
                    },
                    Some(AddHeaderError::PrevHeaderNotCached(_)) => false,
                },
                all_held == forall|j: int|
                    0 <= j < headers@.len() ==> holds_hash(n0, block_hash_of(#[trigger] headers@[j])),
                all_held ==> *self == *old(self) && added@.len() == 0 && err.is_none(),
                states.len() == results.len() + 1,
                states[0] == *old(self),
                states.last() == *self,
                results.len() == i + (if err.is_some() { 1int } else { 0int }),
                forall|j: int|
                    0 <= j < results.len() ==> Self::header_step(states[j], states[j + 1], headers@[j], #[trigger] results[j]),
                forall|j: int| 0 <= j < i ==> (#[trigger] results[j]) is Ok,
                added@ == added_of(results),
                match err {
                    None => true,
                    Some(e) => results.last() == Err::<AddHeaderResult, AddHeaderError>(e),
                },
            decreases headers@.len() - i + (if err.is_none() { 1int } else { 0int }),
        {
            let ghost s0 = *self;
            let ghost added0 = added@;
            let r = self.add_header(headers[i]);
            proof {
                lemma_step_keeps(s0, *self, headers@[i as int], r);
                if all_held {
                    assert(holds_hash(s0.nodes(), block_hash_of(headers@[i as int])));
                }
                let results0 = results;
                states = states.push(*self);
                results = results.push(r);
                assert(results.drop_last() == results0);
                assert forall|j: int|
                    0 <= j < results.len() implies Self::header_step(states[j], states[j + 1], headers@[j], #[trigger] results[j]) by {
                    if j < results0.len() {
                        assert(results[j] == results0[j]);
                    }
                }
            }
            match r {
                Ok(AddHeaderResult::HeaderAdded(c)) => {
                    added.push(c);
                    proof {
                        let n1 = self.nodes();
                        assert forall|a: int|
                            #![trigger n1[a]]
                            n0.len() <= a < n1.len() implies exists|j: int|
                                0 <= j < i + 1 && n1[a].header == #[trigger] headers@[j] by {
                            if a < s0.nodes().len() {
                                let j = choose|j: int| 0 <= j < i && s0.nodes()[a].header == headers@[j];
                                assert(n1[a].header == headers@[j]);
                            } else {
                                assert(n1[a].header == headers@[i as int]);
                            }
                        }
                        assert forall|a: int|
                            0 <= a < added@.len() implies #[trigger] added@[a] == tip_of(n1[n0.len() + a]) by {
                            if a < added0.len() {
                                assert(added@[a] == added0[a]);
                            }
                        }
                    }
                    i = i + 1;
                },
                Ok(AddHeaderResult::HeaderAlreadyExists(_)) => {
                    proof {
                        let n1 = self.nodes();
                        assert forall|a: int|
                            #![trigger n1[a]]
                            n0.len() <= a < n1.len() implies exists|j: int|
                                0 <= j < i + 1 && n1[a].header == #[trigger] headers@[j] by {
                            let j = choose|j: int| 0 <= j < i && s0.nodes()[a].header == headers@[j];
                            assert(n1[a].header == headers@[j]);
                        }
                    }
                    i = i + 1;
                },
                Err(e) => {
                    err = Some(e);
                },
            }
        }
        let ghost nb = self.nodes();
        let ghost before_sort = *self;
        proof {
            assert forall|a: int|
                #![trigger nb[a]]
                n0.len() <= a < nb.len() implies exists|j: int|
                    0 <= j < i && nb[a].header == #[trigger] headers@[j] by {
                assert(nb[a] == self.nodes()[a]);
            }
        }
        self.sort_tips();
        proof {
            let perm = choose|perm: Seq<int>| stable_reorder(before_sort.tip_seq(), self.tip_seq(), perm);
            assert(Self::run_then_sorted(*old(self), *self, headers@, added@, err, states, results, perm));
            if all_held {
                assert(sorted_by_work(old(self).tips@));
            }
            if let Some(e) = err {
                let k = self.failed_at(headers@);
                let hs = headers@;
                assert(0 <= i < hs.len() && !holds_hash(self.nodes(), block_hash_of(hs[i as int]))
                    && forall|j: int| 0 <= j < i ==> holds_hash(self.nodes(), block_hash_of(#[trigger] hs[j])));
                assert(k == i) by {
                    if k < i {
                        assert(holds_hash(self.nodes(), block_hash_of(headers@[k])));
                    }
                    if k > i {
                        assert(holds_hash(self.nodes(), block_hash_of(headers@[i as int])));
                    }
                }
            }
        }
        proof {
            let s0 = *old(self);
            let s1 = *self;
            let hs = headers@;
            let k = s1.processed(hs, err);
            assert(k == i);
            assert forall|a: int| 0 <= a < s0.nodes().len() implies tip_of(#[trigger] s1.nodes()[a])
                == tip_of(s0.nodes()[a]) && s1.nodes()[a].hash == s0.nodes()[a].hash by {
                assert(tip_of(self.nodes()[a]) == tip_of(n0[a]));
            }
            assert forall|a: int| 0 <= a < added@.len() implies #[trigger] added@[a] == tip_of(
                s1.nodes()[s0.nodes().len() + a],
            ) by {
                assert(added@[a] == tip_of(self.nodes()[n0.len() + a]));
            }
            assert forall|j: int| 0 <= j < k implies holds_hash(
                s1.nodes(),
                block_hash_of(#[trigger] hs[j]),
            ) by {
                assert(holds_hash(self.nodes(), block_hash_of(headers@[j])));
            }
            assert forall|a: int| s0.nodes().len() <= a < s1.nodes().len() implies hs.subrange(
                0,
                k,
            ).contains(#[trigger] s1.nodes()[a].header) by {
                assert(nb[a] == s1.nodes()[a]);
                let j = choose|j: int| 0 <= j < i && nb[a].header == #[trigger] headers@[j];
                assert(hs.subrange(0, k)[j] == hs[j]);
            }
        }
        (added, err)
    }

    /// The height of the header with hash `h`; 0 for a hash that is not in
    /// the tree.
    pub open(crate) spec fn height_of_hash(&self, h: Hash256) -> nat {
        match self.node_with_hash(h) {
            Some(node) => node.height as nat,
            None => 0,
        }
    }

    /// The position of the cached block under `hash`, if any.
    fn find_block(&self, hash: &Hash256) -> (r: Option<usize>)
        ensures
            match r {
                Some(i) => i < self.block_cache@.len() && self.block_cache@[i as int].hash == *hash,
                None => forall|i: int|
                    0 <= i < self.block_cache@.len() ==> #[trigger] self.block_cache@[i].hash != *hash,
            },
    {
        let mut i: usize = 0;
        while i < self.block_cache.len()
            invariant
                i <= self.block_cache@.len(),
                forall|k: int| 0 <= k < i ==> #[trigger] self.block_cache@[k].hash != *hash,
            decreases self.block_cache@.len() - i,
        {
            if self.block_cache[i].hash == *hash {
                return Some(i);
            }
            i = i + 1;
        }
        None
    }

    /// Adds `block` to the cache under `hash`, in place of a block cached
    /// under the same hash.
    fn insert_block(&mut self, hash: Hash256, size: usize, block: Block)
        requires
            old(self).wf_unordered(),
            hash == block_hash_of(block.header),
            size as nat == block_size_of(block.header, block.txdata@),
        ensures
            final(self).wf_unordered(),
            final(self).nodes() == old(self).nodes(),
            final(self).tip_seq() == old(self).tip_seq(),
            final(self).network_spec() == old(self).network_spec(),
            final(self).blocks() == stored(old(self).blocks(), CachedBlock { hash, size, block }),
    {
        let ghost b0 = self.block_cache@;
        assert(blocks_wf(b0));
        if let Some(i) = self.find_block(&hash) {
            self.block_cache.set(i, CachedBlock { hash, size, block });
            proof {
                let b1 = self.block_cache@;
                assert forall|x: int, y: int|
                    0 <= x < b1.len() && 0 <= y < b1.len() && #[trigger] b1[x].hash
                        == #[trigger] b1[y].hash implies x == y by {
                    assert(b1[x].hash == b0[x].hash && b1[y].hash == b0[y].hash);
                    assert(b0[x].hash == b0[y].hash);
                }
                assert forall|x: int| 0 <= x < b1.len() implies #[trigger] b1[x].hash
                    == block_hash_of(b1[x].block.header) by {
                    if x != i {
                        assert(b1[x] == b0[x]);
                    }
                }
                let c = choose|k: int| 0 <= k < b0.len() && b0[k].hash == hash;
                assert(b0[c].hash == b0[i as int].hash);
            }
            return;
        }
        self.block_cache.push(CachedBlock { hash, size, block });
        proof {
            let b1 = self.block_cache@;
            assert forall|x: int, y: int|
                0 <= x < b1.len() && 0 <= y < b1.len() && #[trigger] b1[x].hash == #[trigger] b1[y].hash
                    implies x == y by {
                if x < b0.len() && y < b0.len() {
                    assert(b0[x].hash == b0[y].hash);
                }
            }
        }
    }

    /// Removes, in place, the cached blocks that `keep` rejects.
    fn retain_blocks_where(&mut self, keep: Ghost<spec_fn(CachedBlock) -> bool>, decide: Vec<bool>)
        requires
            old(self).wf_unordered(),
            decide@.len() == old(self).blocks().len(),
            forall|i: int| 0 <= i < decide@.len() ==> decide@[i] == keep@(#[trigger] old(self).blocks()[i]),
        ensures
            final(self).wf_unordered(),
            final(self).nodes() == old(self).nodes(),
            final(self).tip_seq() == old(self).tip_seq(),
            final(self).network_spec() == old(self).network_spec(),
            final(self).blocks() == old(self).blocks().filter(keep@),
    {
        let ghost b0 = self.block_cache@;
        let n = decide.len();
        let mut i: usize = 0;
        let mut j: usize = 0;
        while j < n
            invariant
                n == b0.len(),
                decide@.len() == n,
                forall|x: int| 0 <= x < n ==> decide@[x] == keep@(#[trigger] b0[x]),
                j <= n,
                i <= j,
                self.block_cache@ == b0.subrange(0, j as int).filter(keep@) + b0.subrange(j as int, n as int),
                i == b0.subrange(0, j as int).filter(keep@).len(),
                self.header_cache == old(self).header_cache,
                self.tips == old(self).tips,
                self.tip_nodes == old(self).tip_nodes,
                self.network == old(self).network,
                self.genesis_hash == old(self).genesis_hash,
            decreases n - j,
        {
            let ghost f0 = b0.subrange(0, j as int).filter(keep@);
            proof {
                assert(b0.subrange(0, j + 1) == b0.subrange(0, j as int).push(b0[j as int]));
                b0.subrange(0, j as int).lemma_filter_push(b0[j as int], keep@);
                assert(self.block_cache@[i as int] == b0[j as int]);
            }
            if decide[j] {
                i = i + 1;
                proof {
                    assert(self.block_cache@ =~= b0.subrange(0, j + 1).filter(keep@) + b0.subrange(j + 1, n as int));
                }
            } else {
                self.block_cache.remove(i);
                proof {
                    assert(self.block_cache@ =~= b0.subrange(0, j + 1).filter(keep@) + b0.subrange(j + 1, n as int));
                }
            }
            j = j + 1;
        }
        proof {
            assert(b0.subrange(0, n as int) == b0);
            assert(self.block_cache@ =~= b0.filter(keep@));
            lemma_filter_blocks_wf(b0, keep@);
        }
    }

    /// The genesis node that the state started from.
    pub fn genesis(&self) -> (r: &HeaderNode)
        requires
            self.wf(),
        ensures
            *r == self.nodes()[0],
    {
        &self.header_cache.nodes[0]
    }

    /// The node of the header with hash `hash`, if it is in the tree.
    pub fn get_cached_header(&self, hash: &Hash256) -> (r: Option<&HeaderNode>)
        requires
            self.wf(),
        ensures
            match r {
                Some(node) => self.node_with_hash(*hash) == Some(*node),
                None => !holds_hash(self.nodes(), *hash),
            },
    {
        match self.header_cache.find(hash) {
            Some(i) => {
                proof {
                    lemma_node_with_hash(*self, i as int);
                }
                Some(&self.header_cache.nodes[i])
            },
            None => None,
        }
    }

    /// Number of headers in the tree, genesis included.
    pub fn header_count(&self) -> (r: usize)
        ensures
            r == self.nodes().len(),
    {
        self.header_cache.nodes.len()
    }

    /// The tips, ordered by non-increasing work.
    pub fn tips(&self) -> (r: &Vec<Tip>)
        ensures
            r@ == self.tip_seq(),
    {
        &self.tips
    }

    /// The tip with the most work: the head of the active chain.
    pub fn get_active_chain_tip(&self) -> (r: &Tip)
        requires
            self.wf(),
        ensures
            *r == self.tip_seq()[0],
            forall|k: int| 0 <= k < self.tip_seq().len() ==> #[trigger] self.tip_seq()[k].work@ <= r.work@,
    {
        &self.tips[0]
    }

    /// Whether a header with hash `block_hash` is in the tree.
    pub fn is_block_hash_known(&self, block_hash: &Hash256) -> (r: bool)
        requires
            self.wf(),
        ensures
            r == holds_hash(self.nodes(), *block_hash),
    {
        self.header_cache.contains(block_hash)
    }

    /// The cached block under `block_hash`, if any.
    pub fn get_block(&self, block_hash: &Hash256) -> (r: Option<&Block>)
        ensures
            match r {
                Some(b) => exists|i: int|
                    0 <= i < self.blocks().len() && self.blocks()[i].hash == *block_hash
                        && self.blocks()[i].block == *b,
                None => forall|i: int|
                    0 <= i < self.blocks().len() ==> #[trigger] self.blocks()[i].hash != *block_hash,
            },
    {
        match self.find_block(block_hash) {
            Some(i) => {
                assert(self.blocks()[i as int].hash == *block_hash);
                Some(&self.block_cache[i].block)
            },
            None => None,
        }
    }

    /// Drops every cached block.
    pub fn clear_blocks(&mut self)
        requires
            old(self).wf(),
        ensures
            final(self).wf(),
            final(self).nodes() == old(self).nodes(),
            final(self).tip_seq() == old(self).tip_seq(),
            final(self).network_spec() == old(self).network_spec(),
            final(self).blocks().len() == 0,
    {
        self.block_cache = Vec::new();
    }

    /// Drops the cached blocks under the given hashes; absent ones are
    /// ignored.
    pub fn prune_blocks(&mut self, block_hashes: &[Hash256])
        requires
            old(self).wf(),
        ensures
            final(self).wf(),
            final(self).nodes() == old(self).nodes(),
            final(self).tip_seq() == old(self).tip_seq(),
            final(self).network_spec() == old(self).network_spec(),
            final(self).blocks() == old(self).blocks().filter(
                |c: CachedBlock| !block_hashes@.contains(c.hash),
            ),
    {
        let keep: Ghost<spec_fn(CachedBlock) -> bool> = Ghost(|c: CachedBlock| !block_hashes@.contains(c.hash));
        let mut decide: Vec<bool> = Vec::new();
        let mut i: usize = 0;
        while i < self.block_cache.len()
            invariant
                i <= self.block_cache@.len(),
                decide@.len() == i,
                forall|k: int| 0 <= k < i ==> decide@[k] == keep@(#[trigger] self.block_cache@[k]),
                forall|c: CachedBlock| #[trigger] keep@(c) == !block_hashes@.contains(c.hash),
            decreases self.block_cache@.len() - i,
        {
            let d = !slice_contains(block_hashes, &self.block_cache[i].hash);
            assert(d == keep@(self.block_cache@[i as int]));
            decide.push(d);
            i = i + 1;
        }
        self.retain_blocks_where(keep, decide);
    }

    /// Drops the cached blocks whose header is below `height`; a block whose
    /// header is not in the tree counts as height 0.
    pub fn prune_blocks_below_height(&mut self, height: BlockHeight)
        requires
            old(self).wf(),
        ensures
            final(self).wf(),
            final(self).nodes() == old(self).nodes(),
            final(self).tip_seq() == old(self).tip_seq(),
            final(self).network_spec() == old(self).network_spec(),
            final(self).blocks() == old(self).blocks().filter(
                |c: CachedBlock| old(self).height_of_hash(c.hash) >= height,
            ),
    {
        let ghost s0 = *self;
        let keep: Ghost<spec_fn(CachedBlock) -> bool> = Ghost(|c: CachedBlock| s0.height_of_hash(c.hash) >= height);
        let mut decide: Vec<bool> = Vec::new();
        let mut i: usize = 0;
        while i < self.block_cache.len()
            invariant
                *self == s0,
                s0.wf(),
                forall|c: CachedBlock| #[trigger] keep@(c) == (s0.height_of_hash(c.hash) >= height),
                i <= self.block_cache@.len(),
                decide@.len() == i,
                forall|k: int| 0 <= k < i ==> decide@[k] == keep@(#[trigger] self.block_cache@[k]),
            decreases self.block_cache@.len() - i,
        {
            let h = match self.header_cache.find(&self.block_cache[i].hash) {
                Some(j) => {
                    proof {
                        lemma_node_with_hash(*self, j as int);
                    }
                    self.header_cache.nodes[j].height
                },
                None => 0,
            };
            assert(h == s0.height_of_hash(self.block_cache@[i as int].hash));
            assert((h >= height) == keep@(self.block_cache@[i as int]));
            decide.push(h >= height);
            i = i + 1;
        }
        self.retain_blocks_where(keep, decide);
    }

    /// The sum of the encoded sizes of the cached blocks (each block's
    /// `block_size_of`, by the state's invariant), or `usize::MAX` where the
    /// sum does not fit.
    pub fn get_block_cache_size(&self) -> (r: usize)
        ensures
            r == if total_size(self.blocks()) <= usize::MAX {
                total_size(self.blocks())
            } else {
                usize::MAX as nat
            },
    {
        let mut total: usize = 0;
        let mut i: usize = 0;
        while i < self.block_cache.len()
            invariant
                i <= self.block_cache@.len(),
                total == if total_size(self.block_cache@.subrange(0, i as int)) <= usize::MAX {
                    total_size(self.block_cache@.subrange(0, i as int))
                } else {
                    usize::MAX as nat
                },
            decreases self.block_cache@.len() - i,
        {
            let size = self.block_cache[i].size;
            proof {
                let b = self.block_cache@;
                assert(b.subrange(0, i + 1).drop_last() == b.subrange(0, i as int));
            }
            total = if total > usize::MAX - size { usize::MAX } else { total + size };
            i = i + 1;
        }
        proof {
            assert(self.block_cache@.subrange(0, i as int) == self.block_cache@);
        }
        total
    }

    /// The tips after adding, as a leaf, a node whose tip is `c` under
    /// node `p`: `c` takes `p`'s place if `p` is a tip, and joins the end
    /// otherwise.
    pub open(crate) spec fn tips_after(&self, p: int, c: Tip) -> Seq<Tip> {
        if exists|k: int| 0 <= k < self.tip_nodes@.len() && self.tip_nodes@[k] == p {
            self.tips@.update(choose|k: int| 0 <= k < self.tip_nodes@.len() && self.tip_nodes@[k] == p, c)
        } else {
            self.tips@.push(c)
        }
    }

    /// The effect of adding `block`, whose transactions have ids `txids`,
    /// to `s0`, giving `s1` and `r`: a merkle root of the ids that differs
    /// from the header's is refused; then a known header keeps the tree
    /// and tips as they are; a header whose parent's time would overflow the
    /// validator's arithmetic, or that the validator rejects, is refused with
    /// nothing changed; an accepted header becomes a new leaf, and the tips
    /// are reordered by work, stably, by `perm`. Where the block is taken,
    /// it is cached under its hash with encoded size `size`, in place of any
    /// block there, and `r` is its header's height.
    pub open(crate) spec fn block_added(
        s0: BlockchainState,
        s1: BlockchainState,
        block: Block,
        txids: Seq<Hash256>,
        size: usize,
        perm: Seq<int>,
        r: Result<BlockHeight, AddBlockError>,
    ) -> bool {
        let header = block.header;
        let h = block_hash_of(header);
        let m = s0.nodes().len() as int;
        let cached = stored(s0.blocks(), CachedBlock { hash: h, size, block });
        let sized = size as nat == block_size_of(header, block.txdata@);
        if merkle_root_of(txids) matches Some(root) && root != header.merkle_root {
            r == Err::<BlockHeight, AddBlockError>(AddBlockError::InvalidMerkleRoot(h)) && s1 == s0
        } else if holds_hash(s0.nodes(), h) {
            &&& s0.node_with_hash(h) matches Some(node) && r == Ok::<BlockHeight, AddBlockError>(node.height)
            &&& s1.nodes() == s0.nodes()
            &&& s1.tip_seq() == s0.tip_seq()
            &&& s1.blocks() == cached
            &&& sized
        } else if s0.timestamp_overflow(header) {
            r == Err::<BlockHeight, AddBlockError>(
                AddBlockError::Header(AddHeaderError::TimestampOutOfRange(h)),
            ) && s1 == s0
        } else if s0.verdict(header) is Some {
            r == Err::<BlockHeight, AddBlockError>(
                AddBlockError::Header(AddHeaderError::InvalidHeader(h, s0.verdict(header)->Some_0)),
            ) && s1 == s0
        } else {
            &&& appended(s0.nodes(), s1.nodes(), header)
            &&& r == Ok::<BlockHeight, AddBlockError>(s1.nodes()[m].height)
            &&& stable_reorder(
                s0.tips_after(s1.nodes()[m].parent as int, tip_of(s1.nodes()[m])),
                s1.tip_seq(),
                perm,
            )
            &&& s1.blocks() == cached
            &&& sized
        }
    }

    /// Adds a block whose transactions have ids `txids`: checks their merkle
    /// root against the header's, adds the header as `add_header` does,
    /// orders the tips by work, and caches the block under its hash in place
    /// of any block there. Returns the height of its header.
    pub fn add_block_with_txids(&mut self, block: Block, txids: &Vec<Hash256>) -> (r: Result<
        BlockHeight,
        AddBlockError,
    >)
        requires
            old(self).wf(),
            old(self).nodes().len() + 1 < u32::MAX,
            txids@.len() == block.txdata@.len(),
        ensures
            final(self).wf(),
            final(self).network_spec() == old(self).network_spec(),
            exists|size: usize, perm: Seq<int>|
                Self::block_added(*old(self), *final(self), block, txids@, size, perm, r),
    {
        let block_hash = compute_block_hash(&block.header);
        if let Some(root) = compute_merkle_root(txids) {
            if root != block.header.merkle_root {
                let r = Err(AddBlockError::InvalidMerkleRoot(block_hash));
                assert(Self::block_added(*old(self), *self, block, txids@, 0, Seq::empty(), r));
                return r;
            }
        }
        let ghost s0 = *self;
        let result = match self.add_header(block.header) {
            Ok(result) => result,
            Err(err) => {
                let r = Err(AddBlockError::Header(err));
                assert(Self::block_added(*old(self), *self, block, txids@, 0, Seq::empty(), r));
                return r;
            },
        };
        let ghost mid = *self;
        self.sort_tips();
        let ghost sorted = *self;
        let size = compute_block_size(&block.header, &block.txdata);
        let ghost b = block;
        self.insert_block(block_hash, size, block);
        let r = match result {
            AddHeaderResult::HeaderAdded(cached) => Ok(cached.height),
            AddHeaderResult::HeaderAlreadyExists(cached) => Ok(cached.height),
        };
        proof {
            let perm = choose|perm: Seq<int>| stable_reorder(mid.tip_seq(), sorted.tip_seq(), perm);
            if holds_hash(s0.nodes(), block_hash) {
                assert(sorted_by_work(s0.tips@));
                assert(sorted == mid);
            } else {
                let m = s0.nodes().len() as int;
                assert(mid.tips@ == s0.tips_after(mid.nodes()[m].parent as int, tip_of(mid.nodes()[m])));
            }
            assert(Self::block_added(s0, *self, b, txids@, size, perm, r));
        }
        r
    }

    /// Adds a block as `add_block_with_txids` does, with the ids of its own
    /// transactions.
    pub fn add_block(&mut self, block: Block) -> (r: Result<BlockHeight, AddBlockError>)
        requires
            old(self).wf(),
            old(self).nodes().len() + 1 < u32::MAX,
        ensures
            final(self).wf(),
            final(self).network_spec() == old(self).network_spec(),
            exists|size: usize, perm: Seq<int>|
                Self::block_added(*old(self), *final(self), block, txids_of(block.txdata@), size, perm, r),
    {
        let mut txids: Vec<Hash256> = Vec::new();
        let mut i: usize = 0;
        while i < block.txdata.len()
            invariant
                i <= block.txdata@.len(),
                txids@ == txids_of(block.txdata@).subrange(0, i as int),
            decreases block.txdata@.len() - i,
        {
            txids.push(compute_txid(&block.txdata[i]));
            i = i + 1;
            assert(txids@ =~= txids_of(block.txdata@).subrange(0, i as int));
        }
        assert(txids@ =~= txids_of(block.txdata@));
        let ghost ids = txids@;
        let r = self.add_block_with_txids(block, &txids);
        proof {
            let (size, perm) = choose|size: usize, perm: Seq<int>|
                Self::block_added(*old(self), *self, block, ids, size, perm, r);
            assert(Self::block_added(*old(self), *self, block, ids, size, perm, r));
        }
        r
    }

    /// The node `k` parent steps above node `i`.
    pub open(crate) spec fn ancestor(&self, i: int, k: nat) -> int
        decreases k,
    {
        if k == 0 {
            i
        } else {
            self.ancestor(self.nodes()[i].parent as int, (k - 1) as nat)
        }
    }

    /// The locator from round `round` on, standing at node `cur` and walking
    /// back `step` headers per round: each round records `cur`'s hash; when
    /// the walk would pass genesis, or after round 21, the genesis hash ends
    /// the list unless it was just recorded. The step doubles after each
    /// round from round 7 on.
    pub open(crate) spec fn locator_from(&self, cur: int, round: nat, step: nat) -> Seq<Hash256>
        decreases 22 - round,
    {
        let n = self.nodes();
        let here = seq![n[cur].hash];
        let closing = if cur == 0 {
            here
        } else {
            here.push(n[0].hash)
        };
        if round >= 21 || n[cur].height < step {
            closing
        } else {
            here + self.locator_from(
                self.ancestor(cur, step),
                round + 1,
                if round >= 7 {
                    step * 2
                } else {
                    step
                },
            )
        }
    }

    /// Walks `step` parents up from node `cur`; `None` where that passes
    /// genesis.
    fn walk_back(&self, cur: usize, step: u32) -> (r: Option<usize>)
        requires
            self.wf(),
            cur < self.nodes().len(),
        ensures
            match r {
                Some(a) => self.nodes()[cur as int].height >= step && a == self.ancestor(cur as int, step as nat)
                    && a < self.nodes().len(),
                None => self.nodes()[cur as int].height < step,
            },
    {
        let ghost n = self.nodes();
        let mut at = cur;
        let mut j: u32 = 0;
        while j < step
            invariant
                self.wf(),
                n == self.nodes(),
                cur < n.len(),
                j <= step,
                at < n.len(),
                j <= n[cur as int].height,
                n[at as int].height == n[cur as int].height - j,
                at == self.ancestor(cur as int, j as nat),
            decreases step - j,
        {
            if at == 0 {
                return None;
            }
            proof {
                assert(parent_linked(n, at as int));
                lemma_ancestor_step(*self, cur as int, j as nat);
            }
            at = self.header_cache.nodes[at].parent;
            j = j + 1;
        }
        Some(at)
    }

    /// The block locator of the active chain: the hashes of the active tip
    /// and of the 8 headers below it, then of headers ever further apart,
    /// ending with the genesis hash.
    pub fn locator_hashes(&self) -> (r: Vec<Hash256>)
        requires
            self.wf(),
        ensures
            r@ == self.locator_from(self.tip_indices()[0], 0, 1),
    {
        let ghost n = self.nodes();
        let tip_hash = compute_block_hash(&self.tips[0].header);
        let mut cur: usize = match self.header_cache.find(&tip_hash) {
            Some(c) => c,
            None => 0,
        };
        proof {
            let t0 = self.tip_nodes@[0];
            assert(n[t0].hash == block_hash_of(n[t0].header));
            assert(n[cur as int].hash == n[t0].hash);
        }
        let mut hashes: Vec<Hash256> = Vec::new();
        let mut step: u32 = 1;
        let mut round: usize = 0;
        while round < 22
            invariant
                self.wf(),
                n == self.nodes(),
                round < 22,
                cur < n.len(),
                step <= doubling(round as nat),
                step >= 1,
                hashes@ + self.locator_from(cur as int, round as nat, step as nat) == self.locator_from(
                    self.tip_nodes@[0],
                    0,
                    1,
                ),
            decreases 22 - round,
        {
            let here = cur;
            hashes.push(self.header_cache.nodes[cur].hash);
            match self.walk_back(cur, step) {
                None => {
                    if here != 0 {
                        hashes.push(self.genesis_hash);
                    }
                    return hashes;
                },
                Some(a) => {
                    cur = a;
                },
            }
            if round >= 21 {
                if here != 0 {
                    hashes.push(self.genesis_hash);
                }
                return hashes;
            }
            proof {
                lemma_doubling_monotone(round as nat, 20);
                reveal_with_fuel(doubling, 21);
                assert(doubling(20) == 1048576);
            }
            if round >= 7 {
                step = step * 2;
            }
            round = round + 1;
        }
        hashes
    }

    /// Number of parent links from node `i` to genesis.
    pub open(crate) spec fn depth(&self, i: int) -> nat
        decreases i,
    {
        let p = self.nodes()[i].parent as int;
        if i <= 0 || p < 0 || p >= i {
            0
        } else {
            self.depth(p) + 1
        }
    }

    /// The sum of the header work of genesis and of every node on the path
    /// from genesis down to node `i`.
    pub open(crate) spec fn path_work(&self, i: int) -> nat
        decreases i,
    {
        let p = self.nodes()[i].parent as int;
        if i <= 0 || p < 0 || p >= i {
            header_work(self.nodes()[0].header)
        } else {
            self.path_work(p) + header_work(self.nodes()[i].header)
        }
    }

    /// Orders the tips by non-increasing work; tips of equal work keep their
    /// relative order.
    fn sort_tips(&mut self)
        requires
            old(self).wf_unordered(),
        ensures
            final(self).wf(),
            final(self).nodes() == old(self).nodes(),
            final(self).blocks() == old(self).blocks(),
            final(self).network_spec() == old(self).network_spec(),
            exists|perm: Seq<int>| stable_reorder(old(self).tip_seq(), final(self).tip_seq(), perm),
            sorted_by_work(old(self).tips@) ==> *final(self) == *old(self),
    {
        let len = self.tips.len();
        let ghost tips0 = self.tips@;
        let ghost mut perm: Seq<int> = Seq::new(len as nat, |k: int| k);
        let mut i: usize = 1;
        while i < len
            invariant
                self.wf_unordered(),
                self.tips@.len() == len,
                tips0.len() == len,
                1 <= i <= len || len == 0,
                self.nodes() == old(self).nodes(),
                self.block_cache@ == old(self).block_cache@,
                self.network == old(self).network,
                tips0 == old(self).tips@,
                stable_reorder(tips0, self.tips@, perm),
                sorted_by_work(tips0) ==> *self == *old(self),
                forall|a: int, b: int| 0 <= a < b < i ==> self.tips@[a].work@ >= self.tips@[b].work@,
            decreases len - i,
        {
            let mut j: usize = i;
            while j > 0 && self.tips[j].work.gt(&self.tips[j - 1].work)
                invariant
                    self.wf_unordered(),
                    self.tips@.len() == len,
                    tips0.len() == len,
                    i < len,
                    j <= i,
                    self.nodes() == old(self).nodes(),
                    self.block_cache@ == old(self).block_cache@,
                    self.network == old(self).network,
                    stable_reorder(tips0, self.tips@, perm),
                    tips0 == old(self).tips@,
                    sorted_by_work(tips0) ==> *self == *old(self),
                    forall|a: int, b: int|
                        0 <= a < b <= i && b != j ==> self.tips@[a].work@ >= self.tips@[b].work@,
                decreases j,
            {
                let ta = self.tips[j - 1];
                let tb = self.tips[j];
                proof {
                    lemma_swap_tips(self.nodes(), self.tips@, self.tip_nodes@, j - 1, j as int);
                    lemma_swap_stable(tips0, self.tips@, perm, j - 1);
                    perm = perm.update(j - 1, perm[j as int]).update(j as int, perm[j - 1]);
                }
                self.tips.set(j - 1, tb);
                self.tips.set(j, ta);
                self.tip_nodes = Ghost(
                    self.tip_nodes@.update(j - 1, self.tip_nodes@[j as int]).update(
                        j as int,
                        self.tip_nodes@[j - 1],
                    ),
                );
                j = j - 1;
            }
            i = i + 1;
        }
        assert(stable_reorder(tips0, self.tips@, perm));
        assert(stable_reorder(old(self).tip_seq(), self.tip_seq(), perm));
    }
}

/// Each node of `n1` beyond those of `n0` holds one of the first `k` of
/// `headers`.
pub open spec fn new_nodes_from(n0: Seq<HeaderNode>, n1: Seq<HeaderNode>, headers: Seq<Header>, k: int) -> bool {
    forall|a: int|
        n0.len() <= a < n1.len() ==> headers.subrange(0, k).contains(#[trigger] n1[a].header)
}

/// One step of adding a header keeps what the nodes that were there hold,
/// and every hash that was in the tree.
proof fn lemma_step_keeps(
    s0: BlockchainState,
    s1: BlockchainState,
    header: Header,
    r: Result<AddHeaderResult, AddHeaderError>,
)
    requires
        s0.wf_unordered(),
        BlockchainState::header_step(s0, s1, header, r),
    ensures
        s1.nodes().len() == s0.nodes().len() + (if r is Ok && r->Ok_0 is HeaderAdded { 1int } else { 0int }),
        forall|a: int| 0 <= a < s0.nodes().len() ==> tip_of(#[trigger] s1.nodes()[a]) == tip_of(s0.nodes()[a]) && s1.nodes()[a].hash == s0.nodes()[a].hash,
        forall|x: Hash256| holds_hash(s0.nodes(), x) ==> holds_hash(s1.nodes(), x),
        r is Ok ==> holds_hash(s1.nodes(), block_hash_of(header)),
        r is Ok && r->Ok_0 is HeaderAdded ==> s1.nodes()[s0.nodes().len() as int].header == header,
        r is Ok && r->Ok_0 is HeaderAdded ==> (r->Ok_0->HeaderAdded_0) == tip_of(s1.nodes()[s0.nodes().len() as int]),
{
    let n0 = s0.nodes();
    let n1 = s1.nodes();
    if r is Ok && r->Ok_0 is HeaderAdded {
        let m = n0.len() as int;
        assert forall|a: int| 0 <= a < n0.len() implies tip_of(#[trigger] n1[a]) == tip_of(n0[a]) && n1[a].hash == n0[a].hash by {
            if a != n1[m].parent as int {
                assert(n1[a] == n0[a]);
            }
        }
        assert forall|x: Hash256| holds_hash(n0, x) implies holds_hash(n1, x) by {
            let a = choose|a: int| 0 <= a < n0.len() && n0[a].hash == x;
            assert(n1[a].hash == x);
        }
        assert(n1[m].hash == block_hash_of(header));
    }
}

/// `blocks` with `c` in place of the block under the same hash, or with `c`
/// at the end if there is none.
pub open spec fn stored(blocks: Seq<CachedBlock>, c: CachedBlock) -> Seq<CachedBlock> {
    if exists|i: int| 0 <= i < blocks.len() && blocks[i].hash == c.hash {
        blocks.update(choose|i: int| 0 <= i < blocks.len() && blocks[i].hash == c.hash, c)
    } else {
        blocks.push(c)
    }
}

/// Keeping some of the blocks keeps each under its own hash, once.
proof fn lemma_filter_blocks_wf(b: Seq<CachedBlock>, keep: spec_fn(CachedBlock) -> bool)
    requires
        blocks_wf(b),
    ensures
        blocks_wf(b.filter(keep)),
    decreases b.len(),
{
    reveal(Seq::filter);
    if b.len() > 0 {
        let d = b.drop_last();
        assert forall|x: int, y: int|
            0 <= x < d.len() && 0 <= y < d.len() && #[trigger] d[x].hash == #[trigger] d[y].hash implies x
                == y by {
            assert(b[x].hash == b[y].hash);
        }
        assert(forall|x: int| 0 <= x < d.len() ==> #[trigger] d[x] == b[x]);
        lemma_filter_blocks_wf(d, keep);
        let fd = d.filter(keep);
        if keep(b.last()) {
            let f = fd.push(b.last());
            assert forall|x: int, y: int|
                0 <= x < f.len() && 0 <= y < f.len() && #[trigger] f[x].hash == #[trigger] f[y].hash
                    implies x == y by {
                if x < fd.len() && y < fd.len() {
                    assert(fd[x].hash == fd[y].hash);
                } else if x < fd.len() {
                    d.lemma_filter_contains_rev(keep, fd[x]);
                    assert(fd.contains(fd[x]));
                    let z = choose|z: int| 0 <= z < d.len() && d[z] == fd[x];
                    assert(b[z].hash == b[b.len() - 1].hash);
                } else if y < fd.len() {
                    d.lemma_filter_contains_rev(keep, fd[y]);
                    assert(fd.contains(fd[y]));
                    let z = choose|z: int| 0 <= z < d.len() && d[z] == fd[y];
                    assert(b[z].hash == b[b.len() - 1].hash);
                }
            }
            assert forall|x: int| 0 <= x < f.len() implies #[trigger] f[x].hash == block_hash_of(
                f[x].block.header,
            ) by {
                if x < fd.len() {
                    assert(fd[x].hash == block_hash_of(fd[x].block.header));
                }
            }
        }
    }
}

/// `t1` is `t0` reordered by `perm` (`t1[k]` is `t0[perm[k]]`), and tips of
/// equal work in `t1` come in their order in `t0`.
pub open spec fn stable_reorder(t0: Seq<Tip>, t1: Seq<Tip>, perm: Seq<int>) -> bool {
    &&& t1.len() == t0.len()
    &&& perm.len() == t0.len()
    &&& forall|k: int| 0 <= k < perm.len() ==> 0 <= #[trigger] perm[k] < t0.len() && t1[k] == t0[perm[k]]
    &&& forall|a: int, b: int|
        0 <= a < b < perm.len() && t1[a].work@ == t1[b].work@ ==> #[trigger] perm[a] < #[trigger] perm[b]
}

/// Swapping two neighbours of different work keeps a stable reordering
/// stable.
proof fn lemma_swap_stable(t0: Seq<Tip>, t1: Seq<Tip>, perm: Seq<int>, a: int)
    requires
        stable_reorder(t0, t1, perm),
        0 <= a < a + 1 < t1.len(),
        t1[a].work@ != t1[a + 1].work@,
    ensures
        stable_reorder(
            t0,
            t1.update(a, t1[a + 1]).update(a + 1, t1[a]),
            perm.update(a, perm[a + 1]).update(a + 1, perm[a]),
        ),
{
    let t2 = t1.update(a, t1[a + 1]).update(a + 1, t1[a]);
    let p2 = perm.update(a, perm[a + 1]).update(a + 1, perm[a]);
    assert forall|k: int| 0 <= k < p2.len() implies 0 <= #[trigger] p2[k] < t0.len() && t2[k] == t0[p2[k]] by {
        if k != a && k != a + 1 {
            assert(p2[k] == perm[k]);
        }
    }
    assert forall|x: int, y: int|
        0 <= x < y < p2.len() && t2[x].work@ == t2[y].work@ implies #[trigger] p2[x] < #[trigger] p2[y] by {
        let ox = if x == a { a + 1 } else if x == a + 1 { a } else { x };
        let oy = if y == a { a + 1 } else if y == a + 1 { a } else { y };
        assert(p2[x] == perm[ox] && p2[y] == perm[oy]);
        assert(t2[x] == t1[ox] && t2[y] == t1[oy]);
        if ox < oy {
            assert(perm[ox] < perm[oy]);
        } else {
            assert(perm[oy] < perm[ox]);
            assert(false);
        }
    }
}

/// With unique hashes, the node found under a node's hash is that node.
proof fn lemma_node_with_hash(s: BlockchainState, i: int)
    requires
        s.wf_unordered(),
        0 <= i < s.nodes().len(),
    ensures
        s.node_with_hash(s.nodes()[i].hash) == Some(s.nodes()[i]),
{
    let n = s.nodes();
    assert(holds_hash(n, n[i].hash));
    let j = choose|j: int| 0 <= j < n.len() && n[j].hash == n[i].hash;
    assert(n[j].hash == n[i].hash);
}

/// Whether `h` is one of `hs`.
fn slice_contains(hs: &[Hash256], h: &Hash256) -> (r: bool)
    ensures
        r == hs@.contains(*h),
{
    let mut i: usize = 0;
    while i < hs.len()
        invariant
            i <= hs@.len(),
            forall|k: int| 0 <= k < i ==> hs@[k] != *h,
        decreases hs@.len() - i,
    {
        if hs[i] == *h {
            return true;
        }
        i = i + 1;
    }
    false
}

/// The sum of the encoded sizes of `b`'s blocks.
pub open spec fn total_size(b: Seq<CachedBlock>) -> nat
    decreases b.len(),
{
    if b.len() == 0 {
        0
    } else {
        total_size(b.drop_last()) + b.last().size as nat
    }
}

/// Every node's height is the number of edges from it to genesis.
pub proof fn height_is_depth(s: &BlockchainState, i: int)
    requires
        s.wf(),
        0 <= i < s.nodes().len(),
    ensures
        s.nodes()[i].height == s.depth(i),
    decreases i,
{
    let n = s.nodes();
    if i > 0 {
        assert(parent_linked(n, i));
        height_is_depth(s, n[i].parent as int);
    }
}

/// Every node's work is the work of genesis's header plus that of each
/// header on the path from genesis down to the node, taken modulo `2^256`
/// as the 256-bit sum is; where that sum is below `2^256`, exactly.
pub proof fn work_is_path_sum(s: &BlockchainState, i: int)
    requires
        s.wf(),
        0 <= i < s.nodes().len(),
    ensures
        s.nodes()[i].work@ == s.path_work(i) % work_modulus(),
        s.path_work(i) < work_modulus() ==> s.nodes()[i].work@ == s.path_work(i),
    decreases i,
{
    lemma_work_is_path_sum(s, i);
    if s.path_work(i) < work_modulus() {
        vstd::arithmetic::div_mod::lemma_small_mod(s.path_work(i), work_modulus());
    }
}

proof fn lemma_work_is_path_sum(s: &BlockchainState, i: int)
    requires
        s.wf(),
        0 <= i < s.nodes().len(),
    ensures
        s.nodes()[i].work@ == s.path_work(i) % work_modulus(),
    decreases i,
{
    let n = s.nodes();
    if i > 0 {
        let p = n[i].parent as int;
        assert(parent_linked(n, i));
        lemma_work_is_path_sum(s, p);
        assert(work_modulus() > 0) by (nonlinear_arith)
            requires
                work_modulus() == half_modulus() * half_modulus(),
                half_modulus() > 0,
        ;
        vstd::arithmetic::div_mod::lemma_add_mod_noop(
            s.path_work(p) as int,
            header_work(n[i].header) as int,
            work_modulus() as int,
        );
        vstd::arithmetic::div_mod::lemma_mod_twice(header_work(n[i].header) as int, work_modulus() as int);
        vstd::arithmetic::div_mod::lemma_add_mod_noop(
            n[p].work@ as int,
            header_work(n[i].header) as int,
            work_modulus() as int,
        );
        lemma_work_bounds(n[p].work);
        vstd::arithmetic::div_mod::lemma_small_mod(n[p].work@, work_modulus());
    } else {
        lemma_work_bounds(n[0].work);
        vstd::arithmetic::div_mod::lemma_small_mod(n[0].work@, work_modulus());
    }
}

/// The tips are exactly the leaves of the header tree, one tip per leaf,
/// each with its leaf's header, height and work, ordered by non-increasing
/// work.
pub proof fn tips_are_sorted_leaves(s: &BlockchainState)
    requires
        s.wf(),
    ensures
        s.tip_seq().len() == s.tip_indices().len(),
        forall|k: int|
            0 <= k < s.tip_indices().len() ==> 0 <= #[trigger] s.tip_indices()[k] < s.nodes().len()
                && s.nodes()[s.tip_indices()[k]].children@.len() == 0 && s.tip_seq()[k] == tip_of(
                s.nodes()[s.tip_indices()[k]],
            ),
        forall|k1: int, k2: int|
            0 <= k1 < s.tip_indices().len() && 0 <= k2 < s.tip_indices().len() && #[trigger] s.tip_indices()[k1]
                == #[trigger] s.tip_indices()[k2] ==> k1 == k2,
        forall|i: int|
            0 <= i < s.nodes().len() && (#[trigger] s.nodes()[i]).children@.len() == 0 ==> exists|k: int|
                0 <= k < s.tip_indices().len() && s.tip_indices()[k] == i,
        sorted_by_work(s.tip_seq()),
{
    assert(tips_match(s.nodes(), s.tips@, s.tip_nodes@));
    assert(s.tip_indices() == s.tip_nodes@);
    assert(s.tip_seq() == s.tips@);
}

/// There is always an active tip, and no tip has more work.
pub proof fn active_tip_has_most_work(s: &BlockchainState)
    requires
        s.wf(),
    ensures
        s.tip_seq().len() >= 1,
        forall|k: int| 0 <= k < s.tip_seq().len() ==> #[trigger] s.tip_seq()[k].work@ <= s.tip_seq()[0].work@,
{
}

/// Adding the same headers a second time, after a first time without an
/// error, adds nothing, reports no error, and leaves the state as it was:
/// the same nodes with the same children, the same tips, the same blocks.
pub proof fn add_headers_is_idempotent(
    s0: &BlockchainState,
    s1: &BlockchainState,
    s2: &BlockchainState,
    headers: Seq<Header>,
    added1: Seq<CachedHeader>,
    added2: Seq<CachedHeader>,
    err2: Option<AddHeaderError>,
)
    requires
        s0.wf(),
        s1.wf(),
        s2.wf(),
        BlockchainState::headers_outcome(*s0, *s1, headers, added1, None),
        BlockchainState::headers_outcome(*s1, *s2, headers, added2, err2),
    ensures
        added2.len() == 0,
        err2.is_none(),
        *s2 == *s1,
        s2.nodes() == s1.nodes(),
        s2.tip_seq() == s1.tip_seq(),
        s2.blocks() == s1.blocks(),
{
    assert(s1.processed(headers, None) == headers.len());
    assert forall|j: int| 0 <= j < headers.len() implies holds_hash(
        s1.nodes(),
        block_hash_of(#[trigger] headers[j]),
    ) by {}
}

/// The locator of the active chain starts with the active tip's hash, ends
/// with the genesis hash, holds no hash twice, and has at most 24 entries.
pub proof fn locator_shape(s: &BlockchainState)
    requires
        s.wf(),
    ensures
        ({
            let r = s.locator_from(s.tip_indices()[0], 0, 1);
            &&& 1 <= r.len() <= 24
            &&& r[0] == s.nodes()[s.tip_indices()[0]].hash
            &&& r.last() == s.nodes()[0].hash
            &&& r.no_duplicates()
        }),
{
    lemma_locator(s, s.tip_indices()[0], 0, 1);
}

proof fn lemma_ancestor_height(s: &BlockchainState, i: int, k: nat)
    requires
        s.wf(),
        0 <= i < s.nodes().len(),
        k <= s.nodes()[i].height,
    ensures
        0 <= s.ancestor(i, k) < s.nodes().len(),
        s.nodes()[s.ancestor(i, k)].height == s.nodes()[i].height - k,
    decreases k,
{
    if k > 0 {
        let n = s.nodes();
        assert(i != 0);
        assert(parent_linked(n, i));
        lemma_ancestor_height(s, n[i].parent as int, (k - 1) as nat);
    }
}

proof fn lemma_locator(s: &BlockchainState, cur: int, round: nat, step: nat)
    requires
        s.wf(),
        0 <= cur < s.nodes().len(),
        round <= 21,
        step >= 1,
    ensures
        ({
            let r = s.locator_from(cur, round, step);
            let n = s.nodes();
            &&& 1 <= r.len() <= 23 - round
            &&& r[0] == n[cur].hash
            &&& r.last() == n[0].hash
            &&& r.no_duplicates()
            &&& forall|x: int|
                0 <= x < r.len() ==> exists|j: int|
                    0 <= j < n.len() && n[j].hash == #[trigger] r[x] && n[j].height <= n[cur].height
        }),
    decreases 22 - round,
{
    let n = s.nodes();
    let r = s.locator_from(cur, round, step);
    let here = seq![n[cur].hash];
    assert(n[0].height == 0);
    if round >= 21 || n[cur].height < step {
        if cur != 0 {
            assert(r == here.push(n[0].hash));
            assert(n[cur].hash != n[0].hash);
            assert forall|x: int| 0 <= x < r.len() implies exists|j: int|
                0 <= j < n.len() && n[j].hash == #[trigger] r[x] && n[j].height <= n[cur].height by {
                if x == 0 {
                    assert(n[cur].hash == r[x]);
                } else {
                    assert(n[0].hash == r[x]);
                }
            }
        } else {
            assert(r == here);
            assert forall|x: int| 0 <= x < r.len() implies exists|j: int|
                0 <= j < n.len() && n[j].hash == #[trigger] r[x] && n[j].height <= n[cur].height by {
                assert(n[cur].hash == r[x]);
            }
        }
    } else {
        let next = s.ancestor(cur, step);
        let step2 = if round >= 7 { step * 2 } else { step };
        lemma_ancestor_height(s, cur, step);
        lemma_locator(s, next, round + 1, step2);
        let rest = s.locator_from(next, round + 1, step2);
        assert(r == here + rest);
        assert forall|x: int| 0 <= x < rest.len() implies rest[x] != n[cur].hash by {
            let j = choose|j: int|
                0 <= j < n.len() && n[j].hash == #[trigger] rest[x] && n[j].height <= n[next].height;
            assert(n[j].hash == n[cur].hash ==> j == cur);
        }
        assert forall|x: int, y: int| 0 <= x < r.len() && 0 <= y < r.len() && x != y implies r[x] != r[y] by {
            if x > 0 && y > 0 {
                assert(r[x] == rest[x - 1] && r[y] == rest[y - 1]);
            } else if x == 0 {
                assert(r[y] == rest[y - 1]);
            } else {
                assert(r[x] == rest[x - 1]);
            }
        }
        assert forall|x: int| 0 <= x < r.len() implies exists|j: int|
            0 <= j < n.len() && n[j].hash == #[trigger] r[x] && n[j].height <= n[cur].height by {
            if x == 0 {
                assert(n[cur].hash == r[x]);
            } else {
                assert(r[x] == rest[x - 1]);
                let j = choose|j: int|
                    0 <= j < n.len() && n[j].hash == #[trigger] rest[x - 1] && n[j].height <= n[next].height;
                assert(n[j].hash == r[x]);
            }
        }
    }
}

/// One more step up from the `k`-th ancestor is the `k + 1`-th ancestor.
proof fn lemma_ancestor_step(s: BlockchainState, i: int, k: nat)
    ensures
        s.ancestor(i, k + 1) == s.nodes()[s.ancestor(i, k)].parent as int,
    decreases k,
{
    let p = s.nodes()[i].parent as int;
    if k > 0 {
        lemma_ancestor_step(s, p, (k - 1) as nat);
        assert(s.ancestor(i, k + 1) == s.ancestor(p, k));
        assert(s.ancestor(i, k) == s.ancestor(p, (k - 1) as nat));
    } else {
        assert(s.ancestor(i, 1) == s.ancestor(p, 0));
    }
}

/// `2^r`.
spec fn doubling(r: nat) -> nat
    decreases r,
{
    if r == 0 {
        1
    } else {
        2 * doubling((r - 1) as nat)
    }
}

proof fn lemma_doubling_monotone(a: nat, b: nat)
    requires
        a <= b,
    ensures
        doubling(a) <= doubling(b),
    decreases b,
{
    if a < b {
        lemma_doubling_monotone(a, (b - 1) as nat);
    }
}

/// The headers that a run of single-header steps added, in order.
pub open spec fn added_of(results: Seq<Result<AddHeaderResult, AddHeaderError>>) -> Seq<CachedHeader>
    decreases results.len(),
{
    if results.len() == 0 {
        Seq::empty()
    } else {
        let before = added_of(results.drop_last());
        match results.last() {
            Ok(AddHeaderResult::HeaderAdded(c)) => before.push(c),
            _ => before,
        }
    }
}

/// The validator's verdict as the result it returns.
pub open spec fn verdict_result(v: Option<ValidateHeaderError>) -> Result<(), ValidateHeaderError> {
    match v {
        None => Ok(()),
        Some(e) => Err(e),
    }
}

/// Tips ordered by non-increasing work.
pub open spec fn sorted_by_work(t: Seq<Tip>) -> bool {
    forall|i: int, j: int| 0 <= i < j < t.len() ==> t[i].work@ >= t[j].work@
}

/// Each cached block sits under the hash of its header, with the size of
/// its encoding, and no hash twice.
pub open spec fn blocks_wf(b: Seq<CachedBlock>) -> bool {
    &&& forall|i: int|
        0 <= i < b.len() ==> #[trigger] b[i].hash == block_hash_of(b[i].block.header) && b[i].size as nat
            == block_size_of(b[i].block.header, b[i].block.txdata@)
    &&& forall|i: int, j: int|
        0 <= i < b.len() && 0 <= j < b.len() && #[trigger] b[i].hash == #[trigger] b[j].hash ==> i
            == j
}

/// The verdict of the header validator on `header`, given the network, the
/// headers it can look up (with their heights), the height it is told the
/// chain has, and the hash it is told the store starts from: `None` where it
/// accepts the header.
pub uninterp spec fn header_verdict(
    network: NetworkKind,
    headers: Map<Hash256, (Header, u32)>,
    chain_height: u32,
    initial_hash: Hash256,
    header: Header,
) -> Option<ValidateHeaderError>;

/// Relies on `ic_btc_validation::validate_header`, which reads the state
/// through `HeaderStore` only (`get_header`, `get_height`,
/// `get_initial_hash`), so that its verdict is a function of what those
/// return, and which reports `PrevHeaderNotFound` exactly when `get_header`
/// finds no header under the header's `prev_blockhash`. It panics on a
/// predecessor at height `u32::MAX`, which the state's invariant rules out,
/// and where its `u32` time arithmetic overflows, which
/// `timestamp_overflow` rules out.
#[verifier::external_body]
fn validate(network: NetworkKind, store: &BlockchainState, header: &Header) -> (r: Result<
    (),
    ValidateHeaderError,
>)
    requires
        store.wf_unordered(),
        network == store.network_spec(),
        !store.timestamp_overflow(*header),
    ensures
        r == verdict_result(
            header_verdict(network, store.header_map(), store.chain_height(), store.genesis_hash, *header),
        ),
        (r == Err::<(), _>(ValidateHeaderError::PrevHeaderNotFound)) <==> !holds_hash(
            store.nodes(),
            header.prev_blockhash,
        ),
{
    let r = ic_btc_validation::validate_header(&to_bitcoin_network(network), store, &to_bitcoin_header(header));
    r.map_err(|e| match e {
        RawValidationError::HeaderIsOld => ValidateHeaderError::HeaderIsOld,
        RawValidationError::DoesNotMatchCheckpoint => ValidateHeaderError::DoesNotMatchCheckpoint,
        RawValidationError::InvalidPoWForHeaderTarget => ValidateHeaderError::InvalidPoWForHeaderTarget,
        RawValidationError::InvalidPoWForComputedTarget => ValidateHeaderError::InvalidPoWForComputedTarget,
        RawValidationError::TargetDifficultyAboveMax => ValidateHeaderError::TargetDifficultyAboveMax,
        RawValidationError::HeightTooLow => ValidateHeaderError::HeightTooLow,
        RawValidationError::PrevHeaderNotFound => ValidateHeaderError::PrevHeaderNotFound,
    })
}

impl ic_btc_validation::HeaderStore for BlockchainState {
    fn get_header(&self, hash: &bitcoin::BlockHash) -> Option<(bitcoin::BlockHeader, BlockHeight)> {
        match self.header_cache.get(&from_bitcoin_hash(hash)) {
            Some(node) => Some((to_bitcoin_header(&node.header), node.height)),
            None => None,
        }
    }

    fn get_height(&self) -> BlockHeight {
        if self.tips.len() > 0 {
            self.tips[0].height
        } else {
            0
        }
    }

    fn get_initial_hash(&self) -> bitcoin::BlockHash {
        to_bitcoin_hash(&self.genesis_hash)
    }
}

} // verus!
