//! Plain-value models of the chain data that the state engine reasons about.
use vstd::prelude::*;

verus! {

/// A 256-bit identifier (block hash, transaction id or merkle root), held as
/// four little-endian 64-bit words.
#[derive(Clone, Copy, Debug, PartialEq, Eq, Structural, Hash)]
pub struct Hash256(pub u64, pub u64, pub u64, pub u64);

/// The id of a transaction.
pub type Txid = Hash256;

/// The height of a header above genesis.
pub type BlockHeight = u32;

impl Hash256 {
    /// The all-zero hash.
    pub fn zero() -> (r: Hash256)
        ensures
            r == Hash256(0, 0, 0, 0),
    {
        Hash256(0, 0, 0, 0)
    }

    /// Reads the four words from 32 bytes in little-endian order.
    pub fn from_le_bytes(b: [u8; 32]) -> (r: Hash256)
        ensures
            r == Hash256(le_word(b@, 0), le_word(b@, 1), le_word(b@, 2), le_word(b@, 3)),
    {
        Hash256(word_at(&b, 0), word_at(&b, 1), word_at(&b, 2), word_at(&b, 3))
    }

    /// The word at position `k` (0 to 3).
    pub open spec fn word(&self, k: int) -> u64 {
        if k == 0 {
            self.0
        } else if k == 1 {
            self.1
        } else if k == 2 {
            self.2
        } else {
            self.3
        }
    }

    /// Writes the four words as 32 bytes in little-endian order; reading
    /// them back gives the same hash.
    pub fn to_le_bytes(&self) -> (r: [u8; 32])
        ensures
            forall|k: int, j: u64|
                0 <= k < 4 && j < 8 ==> r@[8 * k + j] == #[trigger] le_byte(self.word(k), j),
            Hash256(le_word(r@, 0), le_word(r@, 1), le_word(r@, 2), le_word(r@, 3)) == *self,
    {
        let w: [u64; 4] = [self.0, self.1, self.2, self.3];
        let mut b: [u8; 32] = [0u8; 32];
        for i in 0..4usize
            invariant
                w@ == seq![self.0, self.1, self.2, self.3],
                forall|k: int, j: u64|
                    0 <= k < i && j < 8 ==> b@[8 * k + j] == #[trigger] le_byte(self.word(k), j),
        {
            for j in 0..8usize
                invariant
                    i < 4,
                    w@ == seq![self.0, self.1, self.2, self.3],
                    forall|k: int, jj: u64|
                        0 <= k < i && jj < 8 ==> b@[8 * k + jj] == #[trigger] le_byte(self.word(k), jj),
                    forall|jj: u64| jj < j ==> b@[8 * i + jj] == #[trigger] le_byte(self.word(i as int), jj),
            {
                b[i * 8 + j] = (#[verifier::truncate] (((w[i] >> ((8 * j) as u64)) & 0xff) as u8));
                assert(w[i as int] == self.word(i as int));
            }
        }
        proof {
            lemma_word_bytes(self.0);
            lemma_word_bytes(self.1);
            lemma_word_bytes(self.2);
            lemma_word_bytes(self.3);
            assert forall|k: int| 0 <= k < 4 implies le_word(b@, k) == self.word(k) by {
                lemma_word_bytes(self.word(k));
            }
            assert(le_word(b@, 0) == self.word(0));
            assert(le_word(b@, 1) == self.word(1));
            assert(le_word(b@, 2) == self.word(2));
            assert(le_word(b@, 3) == self.word(3));
        }
        b
    }
}

/// Byte `j` (0 to 7) of `w`, least significant first.
pub open spec fn le_byte(w: u64, j: u64) -> u8 {
    ((w >> (8 * j)) & 0xff) as u8
}

/// The word made of bytes `8k` to `8k + 7` of `b`, least significant first.
pub open spec fn le_word(b: Seq<u8>, k: int) -> u64 {
    (b[8 * k] as u64) | ((b[8 * k + 1] as u64) << 8u64) | ((b[8 * k + 2] as u64) << 16u64) | ((b[8 * k
        + 3] as u64) << 24u64) | ((b[8 * k + 4] as u64) << 32u64) | ((b[8 * k + 5] as u64) << 40u64) | ((b[8
        * k + 6] as u64) << 48u64) | ((b[8 * k + 7] as u64) << 56u64)
}

/// The word at bytes `8k` to `8k + 7` of `b`.
fn word_at(b: &[u8; 32], k: usize) -> (r: u64)
    requires
        k < 4,
    ensures
        r == le_word(b@, k as int),
{
    let o = 8 * k;
    (b[o] as u64) | ((b[o + 1] as u64) << 8u64) | ((b[o + 2] as u64) << 16u64) | ((b[o + 3] as u64) << 24u64)
        | ((b[o + 4] as u64) << 32u64) | ((b[o + 5] as u64) << 40u64) | ((b[o + 6] as u64) << 48u64) | ((
    b[o + 7] as u64) << 56u64)
}

/// Putting a word's bytes back together gives the word.
proof fn lemma_word_bytes(x: u64)
    ensures
        forall|b: Seq<u8>, k: int|
            0 <= 8 * k && 8 * k + 7 < b.len() && (forall|j: u64| j < 8 ==> b[8 * k + j] == #[trigger] le_byte(x, j))
                ==> le_word(b, k) == x,
{
    assert forall|b: Seq<u8>, k: int|
        0 <= 8 * k && 8 * k + 7 < b.len() && (forall|j: u64| j < 8 ==> b[8 * k + j] == #[trigger] le_byte(x, j))
            implies le_word(b, k) == x by {
        let b0 = b[8 * k] as u64;
        let b1 = b[8 * k + 1] as u64;
        let b2 = b[8 * k + 2] as u64;
        let b3 = b[8 * k + 3] as u64;
        let b4 = b[8 * k + 4] as u64;
        let b5 = b[8 * k + 5] as u64;
        let b6 = b[8 * k + 6] as u64;
        let b7 = b[8 * k + 7] as u64;
        assert(b[8 * k + 0] == le_byte(x, 0u64));
        assert(b[8 * k + 1] == le_byte(x, 1u64));
        assert(b[8 * k + 2] == le_byte(x, 2u64));
        assert(b[8 * k + 3] == le_byte(x, 3u64));
        assert(b[8 * k + 4] == le_byte(x, 4u64));
        assert(b[8 * k + 5] == le_byte(x, 5u64));
        assert(b[8 * k + 6] == le_byte(x, 6u64));
        assert(b[8 * k + 7] == le_byte(x, 7u64));
        assert(b0 == x & 0xff) by (bit_vector)
            requires b0 == (((x >> 0u64) & 0xff) as u8) as u64;
        assert(b1 == (x >> 8u64) & 0xff) by (bit_vector)
            requires b1 == (((x >> 8u64) & 0xff) as u8) as u64;
        assert(b2 == (x >> 16u64) & 0xff) by (bit_vector)
            requires b2 == (((x >> 16u64) & 0xff) as u8) as u64;
        assert(b3 == (x >> 24u64) & 0xff) by (bit_vector)
            requires b3 == (((x >> 24u64) & 0xff) as u8) as u64;
        assert(b4 == (x >> 32u64) & 0xff) by (bit_vector)
            requires b4 == (((x >> 32u64) & 0xff) as u8) as u64;
        assert(b5 == (x >> 40u64) & 0xff) by (bit_vector)
            requires b5 == (((x >> 40u64) & 0xff) as u8) as u64;
        assert(b6 == (x >> 48u64) & 0xff) by (bit_vector)
            requires b6 == (((x >> 48u64) & 0xff) as u8) as u64;
        assert(b7 == (x >> 56u64) & 0xff) by (bit_vector)
            requires b7 == (((x >> 56u64) & 0xff) as u8) as u64;
        assert((b0 | (b1 << 8u64) | (b2 << 16u64) | (b3 << 24u64) | (b4 << 32u64) | (b5 << 40u64) | (b6 << 48u64) | (b7 << 56u64)) == x) by (bit_vector)
            requires
                b0 == x & 0xff,
                b1 == (x >> 8u64) & 0xff,
                b2 == (x >> 16u64) & 0xff,
                b3 == (x >> 24u64) & 0xff,
                b4 == (x >> 32u64) & 0xff,
                b5 == (x >> 40u64) & 0xff,
                b6 == (x >> 48u64) & 0xff,
                b7 == (x >> 56u64) & 0xff,
        ;
    }
}

/// The fields of a Bitcoin block header.
#[derive(Clone, Copy, Debug, PartialEq, Eq, Structural)]
pub struct Header {
    pub version: i32,
    pub prev_blockhash: Hash256,
    pub merkle_root: Hash256,
    pub time: u32,
    pub bits: u32,
    pub nonce: u32,
}

/// The Bitcoin networks, each with its own genesis block.
#[derive(Clone, Copy, Debug, PartialEq, Eq, Structural)]
pub enum NetworkKind {
    Bitcoin,
    Testnet,
    Signet,
    Regtest,
}

/// `2^128`, the weight of the high half of a [`Work`] value.
pub open spec fn half_modulus() -> nat {
    u128::MAX as nat + 1
}

/// `2^256`: work values are taken modulo this number.
pub open spec fn work_modulus() -> nat {
    half_modulus() * half_modulus()
}

/// An unsigned 256-bit amount of proof of work, as a high and a low half.
#[derive(Clone, Copy, Debug, PartialEq, Eq, Structural)]
pub struct Work {
    pub hi: u128,
    pub lo: u128,
}

impl View for Work {
    type V = nat;

    open spec fn view(&self) -> nat {
        self.hi as nat * half_modulus() + self.lo as nat
    }
}

/// A work value is below `2^256`, and its high half bounds it.
pub proof fn lemma_work_bounds(w: Work)
    ensures
        w@ < work_modulus(),
        w.hi as nat * half_modulus() <= w@,
        w@ < (w.hi as nat + 1) * half_modulus(),
{
    let b = half_modulus();
    let h = w.hi as nat;
    let l = w.lo as nat;
    assert(h * b + l < (h + 1) * b) by (nonlinear_arith)
        requires
            l < b,
    ;
    assert((h + 1) * b <= b * b) by (nonlinear_arith)
        requires
            h < b,
    ;
}

impl Work {
    /// Work zero.
    pub fn zero() -> (r: Work)
        ensures
            r@ == 0,
    {
        Work { hi: 0, lo: 0 }
    }

    /// The work whose four 64-bit words, least significant first, are `w`.
    pub fn from_words(w: [u64; 4]) -> (r: Work)
        ensures
            r@ == w[0] as nat + w[1] as nat * 0x1_0000_0000_0000_0000 + w[2] as nat * 0x1_0000_0000_0000_0000
                * 0x1_0000_0000_0000_0000 + w[3] as nat * 0x1_0000_0000_0000_0000 * 0x1_0000_0000_0000_0000
                * 0x1_0000_0000_0000_0000,
    {
        let (a, b, c, d) = (w[0], w[1], w[2], w[3]);
        let hi = ((d as u128) << 64u128) | (c as u128);
        let lo = ((b as u128) << 64u128) | (a as u128);
        assert(hi == (d as u128) * 0x1_0000_0000_0000_0000 + (c as u128)) by (bit_vector)
            requires
                hi == ((d as u128) << 64u128) | (c as u128),
        ;
        assert(lo == (b as u128) * 0x1_0000_0000_0000_0000 + (a as u128)) by (bit_vector)
            requires
                lo == ((b as u128) << 64u128) | (a as u128),
        ;
        let r = Work { hi, lo };
        assert(r@ == w[0] as nat + w[1] as nat * 0x1_0000_0000_0000_0000 + w[2] as nat * 0x1_0000_0000_0000_0000
                * 0x1_0000_0000_0000_0000 + w[3] as nat * 0x1_0000_0000_0000_0000 * 0x1_0000_0000_0000_0000
                * 0x1_0000_0000_0000_0000) by (nonlinear_arith)
            requires
                r@ == hi as nat * half_modulus() + lo as nat,
                half_modulus() == 0x1_0000_0000_0000_0000 * 0x1_0000_0000_0000_0000,
                hi as nat == d as nat * 0x1_0000_0000_0000_0000 + c as nat,
                lo as nat == b as nat * 0x1_0000_0000_0000_0000 + a as nat,
                a == w[0], b == w[1], c == w[2], d == w[3],
        ;
        r
    }

    /// The sum of two amounts of work, modulo `2^256`.
    pub fn add(self, other: Work) -> (r: Work)
        ensures
            r@ == (self@ + other@) % work_modulus(),
    {
        let b: Ghost<nat> = Ghost(half_modulus());
        let (lo, carry) = if self.lo <= u128::MAX - other.lo {
            (self.lo + other.lo, 0u128)
        } else {
            (self.lo - (u128::MAX - other.lo) - 1, 1u128)
        };
        assert(lo as nat + carry * b@ == self.lo as nat + other.lo as nat);
        let hi_total: Ghost<nat> = Ghost(self.hi as nat + other.hi as nat + carry as nat);
        proof {
            let h = hi_total@;
            assert(self@ + other@ == h * b@ + lo as nat) by (nonlinear_arith)
                requires
                    self@ == self.hi as nat * b@ + self.lo as nat,
                    other@ == other.hi as nat * b@ + other.lo as nat,
                    lo as nat + carry * b@ == self.lo as nat + other.lo as nat,
                    h == self.hi as nat + other.hi as nat + carry as nat,
            ;
        }
        let hi = if self.hi <= u128::MAX - other.hi && self.hi + other.hi <= u128::MAX - carry {
            self.hi + other.hi + carry
        } else if self.hi <= u128::MAX - other.hi {
            self.hi + other.hi - (u128::MAX - carry) - 1
        } else {
            self.hi - (u128::MAX - other.hi) - 1 + carry
        };
        let r = Work { hi, lo };
        proof {
            let h = hi_total@;
            let m = work_modulus();
            let total = self@ + other@;
            assert(lo < b@);
            if h < b@ {
                assert(hi as nat == h);
                assert(total < m) by (nonlinear_arith)
                    requires
                        total == h * b@ + lo as nat,
                        h < b@,
                        lo < b@,
                        m == b@ * b@,
                ;
                vstd::arithmetic::div_mod::lemma_small_mod(total, m);
            } else {
                assert(hi as nat == h - b@);
                assert(r@ == total - m && total - m < m && total >= m) by (nonlinear_arith)
                    requires
                        total == h * b@ + lo as nat,
                        r@ == (h - b@) * b@ + lo as nat,
                        h < 2 * b@,
                        h >= b@,
                        lo < b@,
                        m == b@ * b@,
                ;
                vstd::arithmetic::div_mod::lemma_fundamental_div_mod_converse(
                    total as int,
                    m as int,
                    1,
                    r@ as int,
                );
            }
        }
        r
    }

    /// Whether `self` is strictly more work than `other`.
    pub fn gt(&self, other: &Work) -> (r: bool)
        ensures
            r == (self@ > other@),
    {
        proof {
            lemma_work_bounds(*self);
            lemma_work_bounds(*other);
            let b = half_modulus();
            if self.hi < other.hi {
                assert((self.hi as nat + 1) * b <= other.hi as nat * b) by (nonlinear_arith)
                    requires
                        self.hi < other.hi,
                ;
            }
            if self.hi > other.hi {
                assert((other.hi as nat + 1) * b <= self.hi as nat * b) by (nonlinear_arith)
                    requires
                        self.hi > other.hi,
                ;
            }
        }
        self.hi > other.hi || (self.hi == other.hi && self.lo > other.lo)
    }
}

} // verus!
