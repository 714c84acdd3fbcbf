//! The tree of validated headers, held as an arena of nodes that link to
//! their parent and children by index.
use crate::bitcoin_ops::{
    block_hash_of, compute_block_hash, compute_header_work, genesis_header, genesis_header_of,
    header_work,
};
use crate::types::{BlockHeight, Hash256, Header, NetworkKind, Work, work_modulus};
use vstd::prelude::*;

verus! {

broadcast use vstd::std_specs::hash::group_hash_axioms;

/// A header in the tree, with its height and the work of the chain that ends
/// in it.
pub struct HeaderNode {
    /// The header itself.
    pub header: Header,
    /// The block hash of `header`.
    pub hash: Hash256,
    /// Number of edges from this node to genesis.
    pub height: BlockHeight,
    /// Work of this header and all its ancestors.
    pub work: Work,
    /// Index of the parent node; genesis is its own parent.
    pub parent: usize,
    /// Indices of the successor headers, in the order they were added.
    pub children: Vec<usize>,
}

/// Why a header could not be added to the tree.
#[derive(Debug, PartialEq, Eq, Structural)]
pub enum HeaderCacheError {
    /// The predecessor of the header is not in the tree.
    NotFound(Hash256),
    /// The header is in the tree already.
    AlreadyExists,
}

/// Node `i` hangs under an earlier node whose hash is its header's
/// `prev_blockhash`, one higher and with its header's work added.
pub open spec fn parent_linked(n: Seq<HeaderNode>, i: int) -> bool {
    let p = n[i].parent as int;
    &&& 0 <= p < i
    &&& n[p].hash == n[i].header.prev_blockhash
    &&& n[i].height == n[p].height + 1
    &&& n[i].work@ == (n[p].work@ + header_work(n[i].header)) % work_modulus()
}

/// The children of node `i` are exactly the later nodes whose parent it is,
/// in increasing order.
pub open spec fn children_exact(n: Seq<HeaderNode>, i: int) -> bool {
    &&& forall|k: int|
        0 <= k < n[i].children@.len() ==> 0 < #[trigger] n[i].children@[k] < n.len()
            && n[n[i].children@[k] as int].parent == i
    &&& forall|k1: int, k2: int|
        0 <= k1 < k2 < n[i].children@.len() ==> n[i].children@[k1] < n[i].children@[k2]
    &&& forall|j: int|
        #![trigger n[j].parent]
        0 < j < n.len() && n[j].parent == i ==> n[i].children@.contains(j as usize)
}

/// Whether some node of `n` has hash `h`.
pub open spec fn holds_hash(n: Seq<HeaderNode>, h: Hash256) -> bool {
    exists|i: int| 0 <= i < n.len() && n[i].hash == h
}

/// The tree's invariant: node 0 is genesis, every other node is linked to an
/// earlier parent, hashes are the headers' hashes and are unique, and the
/// children lists match the parent links.
pub open spec fn tree_wf(n: Seq<HeaderNode>) -> bool {
    &&& 1 <= n.len() < u32::MAX
    &&& n[0].parent == 0
    &&& n[0].height == 0
    &&& n[0].work@ == header_work(n[0].header)
    &&& forall|i: int| 0 <= i < n.len() ==> #[trigger] n[i].hash == block_hash_of(n[i].header)
    &&& forall|i: int, j: int|
        0 <= i < n.len() && 0 <= j < n.len() && #[trigger] n[i].hash == #[trigger] n[j].hash ==> i
            == j
    &&& forall|i: int| 0 < i < n.len() ==> #[trigger] parent_linked(n, i)
    &&& forall|i: int| 0 <= i < n.len() ==> #[trigger] children_exact(n, i)
    &&& forall|i: int| 0 <= i < n.len() ==> #[trigger] n[i].height <= i
}

/// `index` maps the first word of each node's hash to the indices of the
/// nodes whose hash starts with it.
pub open spec fn index_wf(n: Seq<HeaderNode>, index: Map<u64, Vec<usize>>) -> bool {
    &&& forall|i: int|
        0 <= i < n.len() ==> index.contains_key(#[trigger] n[i].hash.0) && index[n[i].hash.0]@.contains(
            i as usize,
        )
    &&& forall|k: u64, j: int|
        #![trigger index[k]@[j]]
        index.contains_key(k) && 0 <= j < index[k]@.len() ==> index[k]@[j] < n.len() && n[index[k]@[j] as int].hash.0 == k
}

/// The headers discovered from peers, rooted at a network's genesis header.
pub(crate) struct HeaderCache {
    pub(crate) nodes: Vec<HeaderNode>,
    pub(crate) index: std::collections::HashMap<u64, Vec<usize>>,
}

impl HeaderCache {
    pub(crate) open spec fn view(&self) -> Seq<HeaderNode> {
        self.nodes@
    }

    pub(crate) open spec fn wf(&self) -> bool {
        &&& tree_wf(self.nodes@)
        &&& index_wf(self.nodes@, self.index@)
    }

    /// A tree that holds the network's genesis header alone.
    pub(crate) fn new(network: NetworkKind) -> (r: Self)
        ensures
            r.wf(),
            r.view().len() == 1,
            r.view()[0].header == genesis_header_of(network),
            r.view()[0].children@.len() == 0,
    {
        let header = genesis_header(network);
        let work = compute_header_work(&header);
        let hash = compute_block_hash(&header);
        let node = HeaderNode { header, hash, height: 0, work, parent: 0, children: Vec::new() };
        let mut nodes: Vec<HeaderNode> = Vec::new();
        nodes.push(node);
        let mut index: std::collections::HashMap<u64, Vec<usize>> = std::collections::HashMap::new();
        let mut bucket: Vec<usize> = Vec::new();
        bucket.push(0);
        index.insert(hash.0, bucket);
        let r = HeaderCache { nodes, index };
        proof {
            assert(children_exact(r.nodes@, 0));
            assert(r.index@[hash.0]@[0] == 0);
        }
        r
    }

    /// The index of the node with hash `hash`, if there is one.
    pub(crate) fn find(&self, hash: &Hash256) -> (r: Option<usize>)
        ensures
            match r {
                Some(i) => i < self.view().len() && self.view()[i as int].hash == *hash,
                None => self.wf() ==> !holds_hash(self.view(), *hash),
            },
    {
        match self.index.get(&hash.0) {
            Some(bucket) => {
                let mut k: usize = 0;
                while k < bucket.len()
                    invariant
                        k <= bucket@.len(),
                        self.wf() ==> bucket@ == self.index@[hash.0]@ && self.index@.contains_key(hash.0),
                        forall|x: int| 0 <= x < k ==> bucket@[x] >= self.nodes@.len() || self.nodes@[bucket@[x] as int].hash != *hash,
                    decreases bucket@.len() - k,
                {
                    let j = bucket[k];
                    if j < self.nodes.len() && self.nodes[j].hash == *hash {
                        return Some(j);
                    }
                    k = k + 1;
                }
                proof {
                    if self.wf() && holds_hash(self.nodes@, *hash) {
                        let i = choose|i: int| 0 <= i < self.nodes@.len() && self.nodes@[i].hash == *hash;
                        assert(self.index@[self.nodes@[i].hash.0]@.contains(i as usize));
                        let x = choose|x: int| 0 <= x < bucket@.len() && bucket@[x] == i as usize;
                        assert(bucket@[x] < self.nodes@.len());
                    }
                }
                None
            },
            None => {
                proof {
                    if self.wf() && holds_hash(self.nodes@, *hash) {
                        let i = choose|i: int| 0 <= i < self.nodes@.len() && self.nodes@[i].hash == *hash;
                        assert(self.index@.contains_key(self.nodes@[i].hash.0));
                    }
                }
                None
            },
        }
    }

    /// The node with hash `hash`, if there is one.
    pub(crate) fn get(&self, hash: &Hash256) -> (r: Option<&HeaderNode>)
        ensures
            match r {
                Some(node) => exists|i: int|
                    0 <= i < self.view().len() && self.view()[i] == *node && node.hash == *hash,
                None => self.wf() ==> !holds_hash(self.view(), *hash),
            },
    {
        match self.find(hash) {
            Some(i) => Some(&self.nodes[i]),
            None => None,
        }
    }

    /// Whether a node has hash `hash`.
    pub(crate) fn contains(&self, hash: &Hash256) -> (r: bool)
        requires
            self.wf(),
        ensures
            r == holds_hash(self.view(), *hash),
    {
        self.find(hash).is_some()
    }

    /// Adds `header` under its parent, unless it is present already or its
    /// parent is not.
    pub(crate) fn insert(&mut self, header: Header) -> (r: Result<(), HeaderCacheError>)
        requires
            old(self).wf(),
            old(self).view().len() + 1 < u32::MAX,
        ensures
            final(self).wf(),
            match r {
                Err(HeaderCacheError::AlreadyExists) => {
                    &&& holds_hash(old(self).view(), block_hash_of(header))
                    &&& final(self).view() == old(self).view()
                },
                Err(HeaderCacheError::NotFound(prev)) => {
                    &&& !holds_hash(old(self).view(), block_hash_of(header))
                    &&& !holds_hash(old(self).view(), header.prev_blockhash)
                    &&& prev == header.prev_blockhash
                    &&& final(self).view() == old(self).view()
                },
                Ok(()) => {
                    &&& !holds_hash(old(self).view(), block_hash_of(header))
                    &&& holds_hash(old(self).view(), header.prev_blockhash)
                    &&& appended(old(self).view(), final(self).view(), header)
                },
            },
    {
        let hash = compute_block_hash(&header);
        if self.find(&hash).is_some() {
            return Err(HeaderCacheError::AlreadyExists);
        }
        let p = match self.find(&header.prev_blockhash) {
            Some(p) => p,
            None => {
                return Err(HeaderCacheError::NotFound(header.prev_blockhash));
            },
        };
        let ghost n0 = self.nodes@;
        let m = self.nodes.len();
        let header_w = compute_header_work(&header);
        let work = self.nodes[p].work.add(header_w);
        let height = self.nodes[p].height + 1;
        let mut children = self.nodes[p].children.clone();
        assert(children@ == n0[p as int].children@);
        children.push(m);
        let updated = HeaderNode {
            header: self.nodes[p].header,
            hash: self.nodes[p].hash,
            height: self.nodes[p].height,
            work: self.nodes[p].work,
            parent: self.nodes[p].parent,
            children,
        };
        self.nodes.set(p, updated);
        let node = HeaderNode { header, hash, height, work, parent: p, children: Vec::new() };
        self.nodes.push(node);
        let ghost idx0 = self.index@;
        let mut bucket = match self.index.remove(&hash.0) {
            Some(b) => b,
            None => Vec::new(),
        };
        let ghost b0 = bucket@;
        bucket.push(m);
        self.index.insert(hash.0, bucket);
        proof {
            let n = self.nodes@;
            let idx = self.index@;
            assert(forall|i: int| 0 <= i < m ==> #[trigger] n[i].hash == n0[i].hash);
            assert forall|i: int| 0 <= i < n.len() implies idx.contains_key(#[trigger] n[i].hash.0) && idx[n[i].hash.0]@.contains(
                i as usize,
            ) by {
                if i < m {
                    assert(idx0[n0[i].hash.0]@.contains(i as usize));
                    if n[i].hash.0 == hash.0 {
                        let x = choose|x: int| 0 <= x < idx0[hash.0]@.len() && idx0[hash.0]@[x] == i as usize;
                        assert(idx[hash.0]@[x] == i as usize);
                    }
                } else {
                    assert(idx[hash.0]@[b0.len() as int] == m);
                }
            }
            assert forall|k: u64, j: int|
                #![trigger idx[k]@[j]]
                idx.contains_key(k) && 0 <= j < idx[k]@.len() implies idx[k]@[j] < n.len() && n[idx[k]@[j] as int].hash.0 == k by {
                if k == hash.0 {
                    if j < b0.len() {
                        assert(idx[k]@[j] == idx0[k]@[j]);
                    }
                } else {
                    assert(idx[k] == idx0[k]);
                }
            }
            assert(forall|i: int| 0 <= i < m && i != p ==> n[i] == n0[i]);
            assert forall|i: int, j: int|
                0 <= i < n.len() && 0 <= j < n.len() && #[trigger] n[i].hash == #[trigger] n[j].hash
                    implies i == j by {
                if i < m && j < m {
                    assert(n0[i].hash == n[i].hash && n0[j].hash == n[j].hash);
                }
            }
            assert forall|i: int| 0 < i < n.len() implies #[trigger] parent_linked(n, i) by {
                if i < m {
                    assert(parent_linked(n0, i));
                }
            }
            assert forall|j: int| 0 <= j < n.len() implies n[j].parent == n0[j].parent || j == m by {}
            assert forall|i: int| 0 <= i < n.len() implies #[trigger] children_exact(n, i) by {
                if i == m {
                    assert forall|j: int|
                        #![trigger n[j].parent]
                        0 < j < n.len() && n[j].parent == i implies n[i].children@.contains(
                        j as usize,
                    ) by {
                        if j < m {
                            assert(parent_linked(n0, j));
                        }
                    }
                } else {
                    assert(children_exact(n0, i));
                    assert forall|k: int| 0 <= k < n[i].children@.len() implies 0
                        < #[trigger] n[i].children@[k] < n.len() && n[n[i].children@[k] as int].parent
                        == i by {
                        if i == p && k == n[i].children@.len() - 1 {
                        } else {
                            assert(n[i].children@[k] == n0[i].children@[k]);
                        }
                    }
                    assert forall|k1: int, k2: int|
                        0 <= k1 < k2 < n[i].children@.len() implies n[i].children@[k1]
                        < n[i].children@[k2] by {
                        if i == p && k2 == n[i].children@.len() - 1 {
                            assert(n[i].children@[k1] == n0[i].children@[k1]);
                            assert(n0[i].children@[k1] < m);
                        }
                    }
                    if i == p {
                        assert forall|j: int|
                            #![trigger n[j].parent]
                            0 < j < n.len() && n[j].parent == i implies n[i].children@.contains(
                            j as usize,
                        ) by {
                            if j == m {
                                assert(n[i].children@[n[i].children@.len() - 1] == m);
                            } else {
                                assert(n0[j].parent == i);
                                let k = choose|k: int|
                                    0 <= k < n0[i].children@.len() && n0[i].children@[k]
                                        == j as usize;
                                assert(n[i].children@[k] == j as usize);
                            }
                        }
                    } else {
                        assert forall|j: int|
                            #![trigger n[j].parent]
                            0 < j < n.len() && n[j].parent == i implies n[i].children@.contains(
                            j as usize,
                        ) by {
                            if j < m {
                                assert(n0[j].parent == i);
                            }
                        }
                    }
                }
            }
            assert(n[0].work@ == header_work(n[0].header)) by {
                if p == 0 {
                } else {
                    assert(n[0] == n0[0]);
                }
            }
            assert forall|i: int| 0 <= i < n.len() implies #[trigger] n[i].height <= i by {
                if i < m {
                    assert(n0[i].height <= i);
                }
            }
            assert forall|i: int| 0 <= i < n.len() implies #[trigger] n[i].hash == block_hash_of(
                n[i].header,
            ) by {
                if i < m {
                    assert(n0[i].hash == block_hash_of(n0[i].header));
                }
            }
        }
        Ok(())
    }
}

/// `n1` is `n0` with a node for `header` appended under the node whose
/// hash is the header's `prev_blockhash`, and linked as its last child.
pub open spec fn appended(n0: Seq<HeaderNode>, n1: Seq<HeaderNode>, header: Header) -> bool {
    let m = n0.len() as int;
    let p = n1[m].parent as int;
    &&& n1.len() == m + 1
    &&& 0 <= p < m
    &&& n0[p].hash == header.prev_blockhash
    &&& n1[m].header == header
    &&& n1[m].hash == block_hash_of(header)
    &&& n1[m].height == n0[p].height + 1
    &&& n1[m].work@ == (n0[p].work@ + header_work(header)) % work_modulus()
    &&& n1[m].children@.len() == 0
    &&& n1[p].children@ == n0[p].children@.push(m as usize)
    &&& n1[p].header == n0[p].header
    &&& n1[p].hash == n0[p].hash
    &&& n1[p].height == n0[p].height
    &&& n1[p].work == n0[p].work
    &&& n1[p].parent == n0[p].parent
    &&& forall|i: int| 0 <= i < m && i != p ==> #[trigger] n1[i] == n0[i]
}

} // verus!
